use witransfer::terminal::Terminal;

#[test]
fn insert_then_get_returns_the_content() {
    let mut terminal = Terminal::new();
    terminal.insert(1, "i am here.".to_string()).unwrap();
    assert_eq!(terminal.get(&1).unwrap(), &"i am here.");
}

#[test]
fn insert_refuses_a_taken_identifier() {
    let mut terminal = Terminal::new();
    terminal.insert(1, "first".to_string()).unwrap();
    assert!(terminal.insert(1, "second".to_string()).is_err());
    assert_eq!(terminal.get(&1).unwrap(), &"first");
    assert_eq!(terminal.data.len(), 1);
}

#[test]
fn modify_updates_or_adds() {
    let mut terminal = Terminal::new();
    terminal.insert(1, "Hello World!".to_string()).unwrap();
    assert_eq!(terminal.get(&1).unwrap(), &"Hello World!".to_string());
    terminal.modify(1, "Hello, I was there.".to_string()).unwrap();
    assert_eq!(terminal.get(&1).unwrap(), &"Hello, I was there.".to_string());
    terminal.modify(2, "Fresh row".to_string()).unwrap();
    assert_eq!(terminal.get(&2).unwrap(), &"Fresh row".to_string());
}

#[test]
fn remove_returns_the_content_or_an_error() {
    let mut terminal = Terminal::new();
    terminal.insert(7, "Two".to_string()).unwrap();
    assert_eq!(terminal.remove(7).unwrap(), "Two".to_string());
    assert!(terminal.remove(7).is_err());
    assert!(terminal.get(&7).is_err());
}

#[test]
fn prompt_and_inserts_build_the_transcript() {
    let mut terminal = Terminal::new();
    terminal.with_prompt("Please select the device:".to_string()).unwrap();
    terminal.insert(1, "alpha".to_string()).unwrap();
    terminal.insert(2, "beta".to_string()).unwrap();
    // A refused insert and a modify leave the transcript alone.
    let _ = terminal.insert(1, "gamma".to_string());
    terminal.modify(2, "beta prime".to_string()).unwrap();
    assert_eq!(
        terminal.transcript,
        vec![
            "Please select the device:".to_string(),
            "alpha".to_string(),
            "beta".to_string()
        ]
    );
}
