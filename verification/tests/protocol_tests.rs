use parrot_rs::codec::{decode_frame_length, encode_frame, encode_frame_length};
use parrot_rs::models::{ChannelMethod, ContinuationCallback, ReturnStatus, SlynkAnswer};
use parrot_rs::parsing::{get_continuation, parse_channel_method, parse_package_list, parse_slynk_answer, parse_symbol_list};
use parrot_rs::repl::{emacs_rex, ContinuationRegistry, OutputPump, Session};

#[test]
fn frame_length_round_trip() {
    for n in [0u32, 1, 5, 255, 0x123456, 0xFFFFFF] {
        let header = encode_frame_length(n);
        assert_eq!(decode_frame_length(&header), Some(n));
    }
    assert_eq!(encode_frame_length(5), "000005");
    assert_eq!(encode_frame_length(0xABCDEF), "abcdef");
}

#[test]
fn frame_encode_prefixes_character_count() {
    assert_eq!(encode_frame("hello"), "000005hello");
    // the prefix counts characters, not bytes
    assert_eq!(encode_frame("öö"), "000002öö");
}

#[test]
fn frame_header_rejects_bad_input() {
    assert_eq!(decode_frame_length("00000"), None);
    assert_eq!(decode_frame_length("00000g"), None);
    assert_eq!(decode_frame_length("0000055"), None);
    assert_eq!(decode_frame_length("00000A"), Some(10));
}

#[test]
fn registry_ids_strictly_increase() {
    let mut reg = ContinuationRegistry::new();
    let mut last = 0;
    for _ in 0..100 {
        let id = reg.next_id();
        assert!(id > last);
        last = id;
    }
}

#[test]
fn registry_lookup_finds_registered_action() {
    let mut reg = ContinuationRegistry::new();
    let id = reg.next_id();
    assert!(reg.lookup(id).is_none());
    reg.register(id, ContinuationCallback::JumpToDef);
    assert!(matches!(reg.lookup(id), Some(&ContinuationCallback::JumpToDef)));
}

#[test]
fn decode_plain_return() {
    let parsed = parse_slynk_answer("(:return (:ok nil) 7)", None).unwrap();
    if let SlynkAnswer::Return { continuation, status, value } = parsed {
        assert_eq!(continuation, 7);
        assert!(matches!(status, ReturnStatus::Okay));
        assert_eq!(value, "nil");
    } else {
        panic!("Wrong enum variant")
    }
}

#[test]
fn decode_abort_return() {
    let parsed = parse_slynk_answer("(:return (:abort \"oops\") 9)", None).unwrap();
    if let SlynkAnswer::Return { continuation, status, value } = parsed {
        assert_eq!(continuation, 9);
        assert!(matches!(status, ReturnStatus::Abort));
        assert_eq!(value, "\"oops\"");
    } else {
        panic!("Wrong enum variant")
    }
}

#[test]
fn decode_failed_compilation_counts_notes() {
    let msg = r#"(:return (:ok (:compilation-result ((:message "one" :severity :warning :location (:location (:file "a.lisp") (:position 1) nil) :references nil) (:message "two" :severity :style-warning :location (:location (:file "a.lisp") (:position 2) nil) :references nil)) nil 0.01 nil nil)) 4)"#;
    let parsed = parse_slynk_answer(msg, None).unwrap();
    if let SlynkAnswer::ReturnCompilationResult { continuation, success, notes, fasl_file, .. } = parsed {
        assert_eq!(continuation, 4);
        assert!(!success);
        assert!(fasl_file.is_none());
        let notes = notes.expect("notes should be present");
        assert_eq!(notes.len(), 2);
        assert_eq!(notes[0].message, "one");
        assert_eq!(notes[0].severity, "warning");
        assert_eq!(notes[0].file.as_deref(), Some("a.lisp"));
    } else {
        panic!("Wrong enum variant")
    }
}

#[test]
fn decode_three_definitions_in_order() {
    let msg = r#"(:return (:ok (("(DEFUN F)" (:location (:file "a.lisp") (:position 1) nil)) ("(DEFUN G)" (:location (:file "b.lisp") (:position 2) nil)) ("(DEFUN H)" (:location (:file "c.lisp") (:position 3) nil)))) 5)"#;
    let parsed = parse_slynk_answer(msg, Some(&ContinuationCallback::JumpToDef)).unwrap();
    if let SlynkAnswer::ReturnFindDefinitionResult { continuation, definitions } = parsed {
        assert_eq!(continuation, 5);
        assert_eq!(definitions.len(), 3);
        assert_eq!(definitions[0].file.as_deref(), Some("a.lisp"));
        assert_eq!(definitions[1].file.as_deref(), Some("b.lisp"));
        assert_eq!(definitions[2].file.as_deref(), Some("c.lisp"));
    } else {
        panic!("Wrong enum variant")
    }
}

#[test]
fn decode_definition_error_entry() {
    let msg = r#"(:return (:ok (("(DEFCONSTANT NIL)" (:error "msg")))) 6)"#;
    let parsed = parse_slynk_answer(msg, Some(&ContinuationCallback::JumpToDef)).unwrap();
    if let SlynkAnswer::ReturnFindDefinitionResult { definitions, .. } = parsed {
        assert_eq!(definitions.len(), 1);
        assert_eq!(definitions[0].error.as_deref(), Some("msg"));
        assert!(definitions[0].file.is_none());
        assert!(definitions[0].position.is_none());
        assert!(definitions[0].snippet.is_none());
    } else {
        panic!("Wrong enum variant")
    }
}

#[test]
fn decode_empty_write_values() {
    let parsed = parse_slynk_answer("(:channel-send 1 (:write-values nil))", None).unwrap();
    if let SlynkAnswer::ChannelSend { channel, method } = parsed {
        assert_eq!(channel, 1);
        if let ChannelMethod::WriteValues(values) = method {
            assert!(values.is_empty());
        } else {
            panic!("Wrong channel method")
        }
    } else {
        panic!("Wrong enum variant")
    }
}

#[test]
fn decode_prompt_updates_session_package() {
    let parsed = parse_slynk_answer("(:channel-send 1 (:prompt \"MY-PACKAGE\" \"MY-PROMPT\" 0 0))", None).unwrap();
    let mut session = Session::new();
    let emitted = session.handle_answer(parsed);
    assert_eq!(emitted.len(), 1);
    // the next request is scoped to the new package
    session.eval_form("(+ 1 2)".to_string()).unwrap();
    let frame = session.next_outgoing().unwrap();
    assert!(frame.contains("(:process \\\"(+ 1 2)\\\")") || frame.contains("(+ 1 2)"));
    session.interactive_eval_form("(car nil)".to_string()).unwrap();
    let frame2 = session.next_outgoing().unwrap();
    assert!(frame2.contains("MY-PACKAGE"));
}

#[test]
fn decode_write_string_and_repl_result_marker() {
    let parsed = parse_slynk_answer("(:write-string \"hi there\" :repl-result)", None).unwrap();
    if let SlynkAnswer::WriteString { value, repl_result } = parsed {
        assert_eq!(value, "hi there");
        assert!(repl_result);
    } else {
        panic!("Wrong enum variant")
    }
    let plain = parse_slynk_answer("(:write-string \"plain\")", None).unwrap();
    if let SlynkAnswer::WriteString { value, repl_result } = plain {
        assert_eq!(value, "plain");
        assert!(!repl_result);
    } else {
        panic!("Wrong enum variant")
    }
}

#[test]
fn decode_debug_push() {
    let msg = "(:debug 1 1 (\"Invalid index\" \"SIMPLE-ERROR\" nil) ((\"ABORT\" \"Exit debugger\")) ((0 \"(FOO)\")) nil)";
    let parsed = parse_slynk_answer(msg, None).unwrap();
    if let SlynkAnswer::Debug { thread, level, condition, restarts, frames, continuations } = parsed {
        assert_eq!(thread, 1);
        assert_eq!(level, 1);
        assert_eq!(condition.desc, "Invalid index");
        assert_eq!(restarts.len(), 1);
        assert_eq!(restarts[0].short, "\"ABORT\"");
        assert_eq!(frames.len(), 1);
        assert!(continuations.is_empty());
    } else {
        panic!("Wrong enum variant")
    }
}

#[test]
fn decode_debug_level_transitions() {
    let act = parse_slynk_answer("(:debug-activate 1 2)", None).unwrap();
    assert!(matches!(act, SlynkAnswer::DebugActivate { thread: 1, level: 2 }));
    let ret = parse_slynk_answer("(:debug-return 1 2)", None).unwrap();
    assert!(matches!(ret, SlynkAnswer::DebugReturn { thread: 1, level: 2 }));
}

#[test]
fn decode_unknown_payload_is_ignorable() {
    let parsed = parse_slynk_answer("(:whatever 1 2 3)", None).unwrap();
    assert!(matches!(parsed, SlynkAnswer::IndentationUpdate));
}

#[test]
fn malformed_recognized_payload_is_a_decode_error() {
    assert!(parse_slynk_answer("(:return (:ok nil) x)", None).is_err());
    assert!(parse_slynk_answer("(:debug not-a-thread)", None).is_err());
    assert!(parse_slynk_answer("(:write-string no-quote)", None).is_err());
}

#[test]
fn channel_method_classification() {
    assert!(matches!(parse_channel_method("(:evaluation-aborted \"boom\")").unwrap(), ChannelMethod::EvaluationAborted(m) if m == "boom"));
    assert!(matches!(parse_channel_method("(:something-else)").unwrap(), ChannelMethod::Unknown(t) if t == "(:something-else)"));
    if let ChannelMethod::Prompt { package, prompt, elevel, len_history, condition } = parse_channel_method("(:prompt \"CL-USER\" \"CL-USER\" 0 3)").unwrap() {
        assert_eq!(package, "CL-USER");
        assert_eq!(prompt, "CL-USER");
        assert_eq!(elevel, 0);
        assert_eq!(len_history, 3);
        assert!(condition.is_none());
    } else {
        panic!("Wrong channel method")
    }
}

#[test]
fn get_continuation_reads_the_trailing_id() {
    assert_eq!(get_continuation("(:return (:ok nil) 7)"), Some(7));
    assert_eq!(get_continuation("(:return (:ok nil) 123456)"), Some(123456));
    assert_eq!(get_continuation("(:write-string \"x\" 3)"), None);
    assert_eq!(get_continuation("(:return (:ok nil))"), None);
}

#[test]
fn compile_and_load_enqueues_the_follow_up_load() {
    let mut session = Session::new();
    session.compile_and_load_file("x.lisp").unwrap();
    let frame = session.next_outgoing().expect("a request should be rendered");
    assert!(frame.contains("(slynk:compile-file-for-emacs \\\"x.lisp\\\" t)") || frame.contains("x.lisp"));
    // inject the successful compilation reply for continuation 1
    let reply = SlynkAnswer::ReturnCompilationResult {
        continuation: 1,
        notes: None,
        success: true,
        duration: "0.01".to_string(),
        loadp: true,
        fasl_file: Some("x.fasl".to_string()),
    };
    let emitted = session.handle_answer(reply);
    assert_eq!(emitted.len(), 1);
    // without further caller action, the writer now renders the load request
    let load_frame = session.next_outgoing().expect("the load should be enqueued");
    assert!(load_frame.contains("(slynk:load-file \"x.fasl\")"));
}

#[test]
fn failed_compilation_notifies_and_does_not_load() {
    let mut session = Session::new();
    session.compile_and_load_file("x.lisp").unwrap();
    let _ = session.next_outgoing().unwrap();
    let reply = SlynkAnswer::ReturnCompilationResult {
        continuation: 1,
        notes: None,
        success: false,
        duration: "0.01".to_string(),
        loadp: false,
        fasl_file: None,
    };
    let emitted = session.handle_answer(reply);
    assert_eq!(emitted.len(), 2);
    assert!(matches!(&emitted[0], SlynkAnswer::Notify { error: true, .. }));
    assert!(session.next_outgoing().is_none());
}

#[test]
fn failed_compilation_with_artifact_loads_nothing() {
    let mut session = Session::new();
    session.compile_and_load_file("x.lisp").unwrap();
    let _ = session.next_outgoing().unwrap();
    let reply = SlynkAnswer::ReturnCompilationResult {
        continuation: 1,
        notes: None,
        success: false,
        duration: "0.01".to_string(),
        loadp: true,
        fasl_file: Some("x.fasl".to_string()),
    };
    let emitted = session.handle_answer(reply);
    assert_eq!(emitted.len(), 2);
    assert!(matches!(&emitted[0], SlynkAnswer::Notify { error: true, .. }));
    assert!(session.next_outgoing().is_none());
}

#[test]
fn read_error_stops_the_reader_without_panicking() {
    let mut session = Session::new();
    assert!(session.reader_is_live());
    session.handle_read_error();
    assert!(!session.reader_is_live());
}

#[test]
fn quit_stops_the_writer() {
    let mut session = Session::new();
    session.quit().unwrap();
    let stop_frame = session.next_outgoing().expect("the stop request goes out");
    assert!(stop_frame.contains("(slynk:quit-lisp)"));
    assert!(session.next_outgoing().is_none());
    assert!(session.eval_form("1".to_string()).is_err());
}

#[test]
fn package_listing_resolves_pending_query_as_sorted_json() {
    let mut session = Session::new();
    session.list_all_packages(42).unwrap();
    let _ = session.next_outgoing().unwrap();
    let reply = SlynkAnswer::Return {
        continuation: 1,
        status: ReturnStatus::Okay,
        value: "(#<PACKAGE \"B\"> #<PACKAGE \"A\">)".to_string(),
    };
    let emitted = session.handle_answer(reply);
    assert_eq!(emitted.len(), 2);
    if let SlynkAnswer::ResolvePending { continuation, data } = &emitted[0] {
        assert_eq!(*continuation, 42);
        assert_eq!(data, "[\"A\",\"B\"]");
    } else {
        panic!("Wrong enum variant")
    }
}

#[test]
fn interactive_eval_reply_becomes_a_notification() {
    let mut session = Session::new();
    session.interactive_eval_form("(+ 1 2)".to_string()).unwrap();
    let _ = session.next_outgoing().unwrap();
    let reply = SlynkAnswer::Return {
        continuation: 1,
        status: ReturnStatus::Okay,
        value: "\"3\"".to_string(),
    };
    let emitted = session.handle_answer(reply);
    assert_eq!(emitted.len(), 2);
    assert!(matches!(&emitted[0], SlynkAnswer::Notify { error: false, text } if text == "3"));
}

#[test]
fn emacs_rex_renders_the_wire_form() {
    assert_eq!(
        emacs_rex("(slynk:quit-lisp)", "CL-USER", 12),
        "(:emacs-rex (slynk:quit-lisp) \"CL-USER\" t 12))\n"
    );
}

#[test]
fn output_pump_flushes_lines_and_stops_on_the_sentinel() {
    let mut pump = OutputPump::new();
    assert!(pump.push_char('h').is_none());
    assert!(pump.push_char('i').is_none());
    let line = pump.push_char('\n').expect("the line flushes");
    assert_eq!(line, "hi\n");
    for c in "REPL~QUI".chars() {
        assert!(pump.push_char(c).is_none());
    }
    let last = pump.push_char('T').expect("the sentinel flushes");
    assert_eq!(last, "REPL~QUIT");
    assert_eq!(pump.log_lines().len(), 2);
}

#[test]
fn parse_package_list_sorts_names() {
    let names = parse_package_list("#<PACKAGE \"B\"> #<PACKAGE \"A\"> #<PACKAGE \"C\">").unwrap();
    assert_eq!(names, vec!["A".to_string(), "B".to_string(), "C".to_string()]);
}

#[test]
fn parse_symbol_list_splits_and_sorts() {
    let symbols = parse_symbol_list("(\"(B A C)\")".to_string()).unwrap();
    assert_eq!(symbols, vec!["A".to_string(), "B".to_string(), "C".to_string()]);
    let empty = parse_symbol_list("(\"nil\")".to_string()).unwrap();
    assert!(empty.is_empty());
}
