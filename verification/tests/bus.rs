use editor_host::bus::{
    after_eval, after_wait, begin_forward, call_request, dispatch_script, get_request,
    reply_result, surface, surface_request, Pending, WebField, WebReply,
};

#[test]
fn scripts_of_requests() {
    let js = dispatch_script(7, &call_request("open", "{\"path\":\"a\"}"));
    assert_eq!(
        js,
        "window.__zguiBridgeDispatch&&window.__zguiBridgeDispatch(7,\"call\",\"open\",{\"path\":\"a\"})"
    );
    let js = dispatch_script(u64::MAX, &get_request("theme"));
    assert_eq!(
        js,
        "window.__zguiBridgeDispatch&&window.__zguiBridgeDispatch(18446744073709551615,\"get\",\"theme\",{})"
    );
    let js = dispatch_script(1, &surface_request());
    assert!(js.ends_with("(1,\"verbs\",\"\",{})"));
}

#[test]
fn names_are_quoted_as_json() {
    let name = "a\"b\\c\u{8}\t\n\u{c}\r\u{1}\u{1f}\u{7f}é\u{2028}/'";
    let js = dispatch_script(1, &get_request(name));
    assert!(js.contains(
        "\"a\\\"b\\\\c\\b\\t\\n\\f\\r\\u0001\\u001f\u{7f}é\u{2028}/'\""
    ));
    assert!(js.chars().all(|c| c >= ' '));
    // Every character below the space.
    for code in 0u8..0x20 {
        let name = (code as char).to_string();
        let js = dispatch_script(1, &get_request(&name));
        assert!(js.contains(&serde_json::to_string(&name).unwrap()), "{code}");
        let quoted = js.split(',').nth(2).unwrap();
        let back: String = serde_json::from_str(quoted).unwrap();
        assert_eq!(back, name);
    }
}

#[test]
fn requests_wait_under_numbers_of_their_own() {
    let mut pending: Pending<&str> = Pending::new();
    assert!(pending.has_room());
    let a = pending.open("a");
    let b = pending.open("b");
    assert_eq!((a, b), (1, 2));
    assert_eq!(pending.take(a), Some("a"));
    assert_eq!(pending.take(a), None);
    assert_eq!(pending.take(99), None);
    // A number is not given out again.
    assert_eq!(pending.open("c"), 3);
    assert_eq!(pending.take(b), Some("b"));
}

#[test]
fn a_request_from_start_to_end() {
    let mut pending: Pending<u8> = Pending::new();
    let err = begin_forward(&mut pending, false, &get_request("x"), 1).err().unwrap();
    assert_eq!(err, "no main webview");

    // Answered.
    let d = begin_forward(&mut pending, true, &get_request("x"), 1).unwrap();
    assert_eq!(d.id, 1);
    assert!(d.script.contains("(1,\"get\",\"x\",{})"));
    assert!(after_eval(&mut pending, d.id, Ok(())).is_ok());
    assert_eq!(pending.take(d.id), Some(1));
    assert_eq!(after_wait(&mut pending, d.id, Some(Ok(5))), Ok(5));

    // Answered with an error.
    let d = begin_forward(&mut pending, true, &get_request("x"), 2).unwrap();
    assert_eq!(
        after_wait::<u8, u8>(&mut pending, d.id, Some(Err("bad".into()))),
        Err("bad".to_string())
    );
    assert_eq!(pending.take(d.id), None);

    // Not answered in time.
    let d = begin_forward(&mut pending, true, &get_request("x"), 3).unwrap();
    assert_eq!(
        after_wait::<u8, u8>(&mut pending, d.id, None),
        Err("webview did not reply".to_string())
    );
    assert_eq!(pending.take(d.id), None);

    // The script could not be run.
    let d = begin_forward(&mut pending, true, &get_request("x"), 4).unwrap();
    assert_eq!(d.id, 4);
    assert_eq!(
        after_eval(&mut pending, d.id, Err("closed".into())),
        Err("eval failed: closed".to_string())
    );
    assert_eq!(pending.take(d.id), None);
}

#[test]
fn what_a_reply_means() {
    assert_eq!(reply_result(true, Some(1), 0, Some("ignored".into())), Ok(1));
    assert_eq!(reply_result(true, None, 0, None), Ok(0));
    assert_eq!(reply_result(false, Some(1), 0, Some("bad".into())), Err("bad".to_string()));
    assert_eq!(reply_result(false, Some(1), 0, None), Err("webview verb failed".to_string()));
}

#[test]
fn the_surface_is_whole_whatever_comes_back() {
    let field = |name: &str, items: Vec<i32>| (name.to_string(), WebField::Array(items));
    let full = surface(Ok(WebReply::Object(vec![
        field("events", vec![5]),
        field("verbs", vec![1, 2]),
        field("other", vec![9]),
        field("state", vec![3, 4]),
    ])));
    assert_eq!(full.app, "zemacs-gui");
    assert_eq!((full.verbs, full.state, full.events), (vec![1, 2], vec![3, 4], vec![5]));

    let partial = surface(Ok(WebReply::Object(vec![
        ("verbs".to_string(), WebField::Other),
        field("state", vec![3]),
    ])));
    assert_eq!((partial.verbs, partial.state, partial.events), (vec![], vec![3], vec![]));

    for empty in [surface::<i32>(Ok(WebReply::Other)), surface(Err("no main webview".into()))] {
        assert_eq!(empty.app, "zemacs-gui");
        assert!(empty.verbs.is_empty() && empty.state.is_empty() && empty.events.is_empty());
    }
}
