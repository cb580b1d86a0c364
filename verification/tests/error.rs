//! Messages of the fatal errors.

use pydoc_gen::error::Error;

#[test]
fn invalid_input_message_names_the_path() {
    let e = Error::InvalidInputPath("/nope".to_string());
    assert_eq!(e.message(), "input path '/nope' does not exist or is not a directory");
}

#[test]
fn parse_and_plain_messages() {
    let e = Error::ParseSource("a.py".to_string(), "bad token".to_string());
    assert_eq!(e.message(), "could not parse 'a.py': bad token");
    assert_eq!(Error::Message("plain".to_string()).message(), "plain");
}

#[test]
fn io_messages_carry_the_cause() {
    let io = std::io::Error::new(std::io::ErrorKind::Other, "disk on fire");
    let e = Error::ReadFile("x.py".to_string(), io);
    assert_eq!(e.message(), "could not read 'x.py': disk on fire");
    let io = std::io::Error::new(std::io::ErrorKind::Other, "gone");
    let e = Error::ReadTheme("t.css".to_string(), io);
    assert_eq!(e.message(), "could not read theme 't.css': gone");
    let io = std::io::Error::new(std::io::ErrorKind::Other, "full");
    let e = Error::WriteOutput("out".to_string(), io);
    assert_eq!(e.message(), "could not write output 'out': full");
}
