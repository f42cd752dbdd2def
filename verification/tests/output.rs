use sliding_puzzle::clear_terminal;
use sliding_puzzle::put;
use sliding_puzzle::SizeInput;
use sliding_puzzle::CLEAR_TERMINAL;

#[test]
fn put_appends_to_the_buffer() {
    let mut out = String::new();
    put(&mut out, "hello");
    put(&mut out, ", ");
    put(&mut out, "puzzle");
    assert_eq!(out, "hello, puzzle");
}

#[test]
fn clear_terminal_queues_the_control_sequence() {
    let mut out = String::from("before");
    clear_terminal(&mut out);
    if CLEAR_TERMINAL {
        assert_eq!(out, "before\x1b[2J\x1b[1;1H");
    } else {
        assert_eq!(out, "before");
    }
}

#[test]
fn size_inputs_name_the_two_dimensions() {
    let which = SizeInput::Width;
    let label = match which {
        SizeInput::Width => "width",
        SizeInput::Height => "height",
    };
    assert_eq!(label, "width");
    let which = SizeInput::Height;
    let label = match which {
        SizeInput::Width => "width",
        SizeInput::Height => "height",
    };
    assert_eq!(label, "height");
}
