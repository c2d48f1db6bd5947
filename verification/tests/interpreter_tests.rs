use lifes_progress::interpreter::{
    is_valid_symbol, plan_turtle_program, symbol_type, validate_symbols, InterpretError,
    SymbolType, TurtleCommand,
};

#[test]
fn accepted_symbols() {
    for c in ['F', 'S', 'B', 'C', '+', '-', '[', ']'] {
        assert!(is_valid_symbol(c));
    }
    for c in ['X', 'f', ' ', '(', 'é'] {
        assert!(!is_valid_symbol(c));
    }
}

#[test]
fn symbol_types_of_drawing_symbols() {
    assert_eq!(symbol_type('F'), Some(SymbolType::Legacy));
    assert_eq!(symbol_type('S'), Some(SymbolType::Segment));
    assert_eq!(symbol_type('B'), Some(SymbolType::Bifurcation));
    assert_eq!(symbol_type('C'), Some(SymbolType::Core));
    assert_eq!(symbol_type('+'), None);
    assert_eq!(symbol_type('['), None);
}

#[test]
fn invalid_symbol_is_rejected() {
    assert!(!validate_symbols("F+X"));
    assert_eq!(plan_turtle_program("F+X"), Err(InterpretError::InvalidSymbol));
    assert_eq!(
        InterpretError::InvalidSymbol.message(),
        "Invalid symbol in L-System string"
    );
}

#[test]
fn empty_string_gives_empty_program() {
    assert!(validate_symbols(""));
    assert_eq!(plan_turtle_program(""), Ok(vec![]));
}

#[test]
fn branch_program_tracks_depth_and_age() {
    let program = plan_turtle_program("CF[+S]-B").unwrap();
    assert_eq!(
        program,
        vec![
            TurtleCommand::Draw { symbol_type: SymbolType::Core, bracket_depth: 0, segment_index: 0 },
            TurtleCommand::Draw { symbol_type: SymbolType::Legacy, bracket_depth: 0, segment_index: 1 },
            TurtleCommand::PushBranch,
            TurtleCommand::Turn { clockwise: true, bracket_depth: 1 },
            TurtleCommand::Draw { symbol_type: SymbolType::Segment, bracket_depth: 1, segment_index: 0 },
            TurtleCommand::PopBranch,
            TurtleCommand::Turn { clockwise: false, bracket_depth: 0 },
            TurtleCommand::Draw { symbol_type: SymbolType::Bifurcation, bracket_depth: 0, segment_index: 2 },
        ]
    );
}

#[test]
fn unmatched_closing_bracket_is_ignored() {
    let program = plan_turtle_program("]F]").unwrap();
    assert_eq!(
        program,
        vec![TurtleCommand::Draw { symbol_type: SymbolType::Legacy, bracket_depth: 0, segment_index: 0 }]
    );
}

#[test]
fn nested_branches_restore_parent_age() {
    let program = plan_turtle_program("FF[F[F]F]F").unwrap();
    let draws: Vec<(usize, usize)> = program
        .iter()
        .filter_map(|c| match c {
            TurtleCommand::Draw { bracket_depth, segment_index, .. } => Some((*bracket_depth, *segment_index)),
            _ => None,
        })
        .collect();
    assert_eq!(draws, vec![(0, 0), (0, 1), (1, 0), (2, 0), (1, 1), (0, 2)]);
}

#[test]
fn one_segment_per_drawing_symbol() {
    let symbols = "F[+S[-B]C]F-F[";
    let program = plan_turtle_program(symbols).unwrap();
    let draws = program.iter().filter(|c| matches!(c, TurtleCommand::Draw { .. })).count();
    let drawing = symbols.chars().filter(|c| "FSBC".contains(*c)).count();
    assert_eq!(draws, drawing);
}

#[test]
fn program_is_well_bracketed() {
    let program = plan_turtle_program("]F[[+F]]]-F[").unwrap();
    let mut open: i64 = 0;
    for command in &program {
        match command {
            TurtleCommand::PushBranch => open += 1,
            TurtleCommand::PopBranch => open -= 1,
            TurtleCommand::Draw { bracket_depth, .. } | TurtleCommand::Turn { bracket_depth, .. } => {
                assert_eq!(*bracket_depth as i64, open)
            }
        }
        assert!(open >= 0);
    }
}
