use jgd::par::{CompileError, Fault};
use jgd::record::{Cause, Field, ParseError};
use jgd::Record;
use jgd::source::{body_start, compile_source, crlf_lines, SourceError};

fn lines(text: &[&str]) -> Vec<Vec<u8>> {
    text.iter().map(|line| line.as_bytes().to_vec()).collect()
}

const FILE: &str = "JGD2000-TokyoDatum Ver.2.1.2\r\n\
MeshCode   dB(sec)   dL(sec)\r\n\
46303583  12.79800  -8.13355\r\n\
46303582  12.79799  -8.13354\r\n";

#[test]
fn crlf_lines_splits_and_strips() {
    assert_eq!(crlf_lines(b""), Ok(vec![]));
    assert_eq!(crlf_lines(b"\r\n"), Ok(lines(&[""])));
    assert_eq!(crlf_lines(b"a\r\nbc\r\n"), Ok(lines(&["a", "bc"])));
    assert_eq!(crlf_lines(b"a\r\nbc\r"), Ok(lines(&["a", "bc"])));
    assert_eq!(crlf_lines(b"a\r\n\r\n\r\r\n"), Ok(lines(&["a", "", "\r"])));
    assert_eq!(crlf_lines(FILE.as_bytes()).unwrap().len(), 4);
}

#[test]
fn crlf_lines_names_the_line_without_a_carriage_return() {
    assert_eq!(crlf_lines(b"\n"), Err(0));
    assert_eq!(crlf_lines(b"a"), Err(0));
    assert_eq!(crlf_lines(b"a\n"), Err(0));
    assert_eq!(crlf_lines(b"a\r\nb\nc\r\n"), Err(1));
    assert_eq!(crlf_lines(b"a\r\nb\r\nc"), Err(2));
    assert_eq!(crlf_lines(b"a\r\nb\r\n\n"), Err(2));
    assert_eq!(crlf_lines(b"a\rb\n"), Err(0));
}

#[test]
fn body_starts_after_the_first_header() {
    let header = "MeshCode   dB(sec)   dL(sec)";
    assert_eq!(body_start(&lines(&[])), 0);
    assert_eq!(body_start(&lines(&["a", "b"])), 2);
    assert_eq!(body_start(&lines(&[header])), 1);
    assert_eq!(body_start(&lines(&["a", header, "b", header, "c"])), 2);
    assert_eq!(body_start(&lines(&["MeshCode   dB(sec)   dL(sec) ", "MeshCode  dB(sec)   dL(sec)"])), 2);
    assert_eq!(body_start(&lines(&["meshcode   db(sec)   dl(sec)", "x"])), 2);
}

#[test]
fn compile_source_reads_a_file() {
    assert_eq!(
        compile_source(FILE.as_bytes()),
        Ok(vec![
            Record(3718, 2452, 12_797_990, -8_133_540),
            Record(3718, 2453, 12_798_000, -8_133_550),
        ])
    );
}

#[test]
fn compile_source_without_header_is_empty() {
    assert_eq!(compile_source(b"46303583  12.79800  -8.13355\r\n"), Ok(vec![]));
    assert_eq!(compile_source(b""), Ok(vec![]));
}

#[test]
fn compile_source_wants_crlf() {
    let unix = FILE.replace("\r\n", "\n");
    assert_eq!(compile_source(unix.as_bytes()), Err(SourceError::NotCrlf { line: 0 }));
    let last = &FILE[..FILE.len() - 2];
    assert_eq!(compile_source(last.as_bytes()), Err(SourceError::NotCrlf { line: 3 }));
}

#[test]
fn compile_source_counts_lines_from_the_top() {
    let broken = FILE.replace("12.79799", "12,79799");
    assert_eq!(
        compile_source(broken.as_bytes()),
        Err(SourceError::Body(CompileError {
            line: 3,
            fault: Fault::Malformed(ParseError {
                field: Field::LatShift,
                cause: Cause::NoDecimalPoint
            })
        }))
    );
    let conflict = format!("{}46303583  12.79800  -8.13356\r\n", FILE);
    assert_eq!(
        compile_source(conflict.as_bytes()),
        Err(SourceError::Body(CompileError { line: 4, fault: Fault::Conflict }))
    );
    let repeated = format!("{}46303583  12.79800  -8.13355\r\n", FILE);
    assert_eq!(compile_source(repeated.as_bytes()).map(|table| table.len()), Ok(2));
}
