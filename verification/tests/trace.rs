use ser_hex::trace::{Action, DataError, ReadSpan, Trace, TreeSpan};

fn trace_of(data: &[u8]) -> Trace {
    Trace {
        data: data.to_vec(),
        start_index: 0,
        root: Action::Span(TreeSpan { name: "root".to_string(), actions: vec![] }),
    }
}

#[test]
fn data_is_stored_as_padded_base64() {
    assert_eq!(trace_of(&[]).data_text(), "");
    assert_eq!(trace_of(&[1, 2, 3]).data_text(), "AQID");
    assert_eq!(trace_of(&[1, 2, 3, 4]).data_text(), "AQIDBA==");
    assert_eq!(trace_of(&[1, 2, 3, 4, 5]).data_text(), "AQIDBAU=");
    assert_eq!(trace_of(&[0xfb, 0xff, 0xfe]).data_text(), "+//+");
    assert_eq!(trace_of(b"hello world~").data_text(), "aGVsbG8gd29ybGR+");
}

#[test]
fn stored_data_is_read_back() {
    let root = || Action::Span(TreeSpan { name: "r".to_string(), actions: vec![Action::Read(4)] });
    let trace = Trace::from_stored("AQIDBA==", 7, root()).unwrap();
    assert_eq!(trace.data, vec![1, 2, 3, 4]);
    assert_eq!(trace.start_index, 7);
    assert!(matches!(&trace.root, Action::Span(s) if s.name == "r" && s.actions.len() == 1));
    assert_eq!(Trace::from_stored("", 0, root()).unwrap().data, Vec::<u8>::new());
    for data in [&b""[..], b"a", b"ab", b"abc", &[0, 255, 128, 7]] {
        let text = trace_of(data).data_text();
        assert_eq!(Trace::from_stored(&text, 0, root()).unwrap().data, data);
    }
}

#[test]
fn text_that_is_not_base64_holds_no_data() {
    let root = || Action::Span(TreeSpan { name: "r".to_string(), actions: vec![] });
    assert_eq!(
        Trace::from_stored("AQ!D", 0, root()).err(),
        Some(DataError::InvalidByte(2, b'!'))
    );
    assert_eq!(
        Trace::from_stored("AQIDB", 0, root()).err(),
        Some(DataError::InvalidLength(5))
    );
    assert_eq!(
        Trace::from_stored("AQIDBA", 0, root()).err(),
        Some(DataError::InvalidPadding)
    );
    assert_eq!(
        Trace::from_stored("AQIDBB==", 0, root()).err(),
        Some(DataError::InvalidLastSymbol(5, b'B', 1))
    );
}

#[test]
fn a_new_span_has_its_name_and_no_actions() {
    let span: ReadSpan<u64> = ReadSpan::new("read_stuff");
    assert_eq!(span.name, "read_stuff");
    assert!(span.actions.is_empty());
    let tree: ReadSpan = ReadSpan::new("");
    assert_eq!(tree.name, "");
    assert!(tree.actions.is_empty());
}
