use trait_resolution::breakpoints::{
    breakpoint_opcode_indexes, vm_pc_to_breakpoint_id, AdapterError, Breakpoint, SourceMap, SourceSpan,
};

fn source_map() -> SourceMap {
    SourceMap {
        paths: vec!["main.sw".to_string(), "lib.sw".to_string()],
        map: vec![
            (0, SourceSpan { path: 0, start_line: 3 }),
            (1, SourceSpan { path: 0, start_line: 4 }),
            (2, SourceSpan { path: 0, start_line: 4 }),
            (3, SourceSpan { path: 1, start_line: 10 }),
        ],
    }
}

fn breakpoints() -> Vec<(String, Vec<Breakpoint>)> {
    vec![
        ("main.sw".to_string(), vec![Breakpoint { id: Some(7), line: Some(4) }, Breakpoint { id: Some(8), line: Some(9) }]),
        ("lib.sw".to_string(), vec![Breakpoint { id: None, line: Some(10) }, Breakpoint { id: Some(9), line: None }]),
    ]
}

#[test]
fn program_counter_maps_to_breakpoint() {
    let sm = source_map();
    let bps = breakpoints();
    assert_eq!(vm_pc_to_breakpoint_id(&sm, &bps, 4), Ok(7));
    assert_eq!(vm_pc_to_breakpoint_id(&sm, &bps, 8), Ok(7));
    assert_eq!(vm_pc_to_breakpoint_id(&sm, &bps, 0), Err(AdapterError::UnknownBreakpoint { pc: 0 }));
    assert_eq!(vm_pc_to_breakpoint_id(&sm, &bps, 12), Err(AdapterError::UnknownBreakpoint { pc: 12 }));
    assert_eq!(vm_pc_to_breakpoint_id(&sm, &bps, 40), Err(AdapterError::MissingSourceMap { pc: 40 }));
}

#[test]
fn breakpoint_lines_map_to_first_instructions() {
    let sm = source_map();
    let bps = breakpoints();
    assert_eq!(breakpoint_opcode_indexes(&sm, &bps), vec![1, 3]);
    assert_eq!(sm.vm_pc_to_source_location(12), Ok((1, 10)));
}
