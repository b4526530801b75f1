use snake::compile::CompileErr;
use snake::lexer::{file_info, fits, span1_to_span2, Span1, Span2};
use snake::runner::{locate_error, RunnerErr};

#[test]
fn spans_map_to_lines_and_columns() {
    let info = file_info("let x = 1\nin x + y\n");
    let s = span1_to_span2(&info, Span1 { start_ix: 17, end_ix: 18 });
    assert_eq!(s, Span2 { start_line: 2, start_col: 7, end_line: 2, end_col: 8 });
    let s = span1_to_span2(&info, Span1 { start_ix: 0, end_ix: 3 });
    assert_eq!(s, Span2 { start_line: 1, start_col: 0, end_line: 1, end_col: 3 });
}

#[test]
fn a_span_may_cross_lines() {
    let info = file_info("ab\ncd\nef");
    let s = span1_to_span2(&info, Span1 { start_ix: 1, end_ix: 7 });
    assert_eq!(s, Span2 { start_line: 1, start_col: 1, end_line: 3, end_col: 1 });
}

#[test]
fn spans_describe_themselves() {
    let s = Span2 { start_line: 2, start_col: 7, end_line: 2, end_col: 8 };
    assert_eq!(s.describe(), "line 2, column 7 to line 2, column 8");
}

#[test]
fn spans_outside_the_text_do_not_fit() {
    let info = file_info("abc");
    assert!(fits(&info, Span1 { start_ix: 0, end_ix: 3 }));
    assert!(!fits(&info, Span1 { start_ix: 3, end_ix: 3 }));
    assert!(!fits(&info, Span1 { start_ix: 0, end_ix: 0 }));
}

#[test]
fn errors_are_located_in_the_file() {
    let info = file_info("x\ny\n");
    let e = CompileErr::UnboundVariable { unbound: String::from("y"), location: Span1 { start_ix: 2, end_ix: 3 } };
    let r = locate_error(&info, &e);
    assert_eq!(r.describe(), "Error generating assembly: Unbound variable y at line 2, column 0 to line 2, column 1");
    match r {
        RunnerErr::CodeGen(CompileErr::UnboundVariable { unbound, location }) => {
            assert_eq!(unbound, "y");
            assert_eq!(location, Span2 { start_line: 2, start_col: 0, end_line: 2, end_col: 1 });
        }
        _ => panic!("wrong error"),
    }
}

#[test]
fn driver_errors_describe_themselves() {
    let e: RunnerErr<Span2> = RunnerErr::FileOpen(String::from("no such file"));
    assert_eq!(e.describe(), "Error reading file: no such file");
    let e: RunnerErr<Span2> = RunnerErr::Link(String::from("nasm"));
    assert_eq!(e.describe(), "Error linking generated assembly with runtime: nasm");
    let e: RunnerErr<Span2> = RunnerErr::Run(String::from("code 1"));
    assert_eq!(e.describe(), "Error running your compiled output: code 1");
}
