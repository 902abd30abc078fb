use vrun::listen::{http_body, plan_saved_tests, Payload, TestCase};

#[test]
fn body_after_blank_line() {
    let req = "POST / HTTP/1.1\r\nContent-Length: 2\r\n\r\n{}";
    assert_eq!(http_body(req), Some("{}".to_string()));
    assert_eq!(http_body("GET / HTTP/1.1\r\n"), None);
    assert_eq!(http_body("a\r\n\r\nb\r\n\r\nc"), Some("b".to_string()));
    assert_eq!(http_body("\r\n\r\n"), Some(String::new()));
}

#[test]
fn received_tests_planned() {
    let p = Payload {
        name: "A. Sum".to_string(),
        group: None,
        tests: vec![
            TestCase { input: "1 2\n\n".to_string(), output: "3  ".to_string() },
            TestCase { input: "4 5".to_string(), output: "9\n".to_string() },
        ],
    };
    let (problem, files) = plan_saved_tests(&p).unwrap();
    assert_eq!(problem, "A_Sum");
    assert_eq!(files.len(), 2);
    assert_eq!(files[0].input_name, "A_Sum_input0.txt");
    assert_eq!(files[0].output_name, "A_Sum_output0.txt");
    assert_eq!(files[0].input_content, "1 2\n");
    assert_eq!(files[0].output_content, "3\n");
    assert_eq!(files[1].input_name, "A_Sum_input1.txt");
    assert_eq!(files[1].output_content, "9\n");
}

#[test]
fn empty_payload_saves_nothing() {
    let p = Payload { name: "X".to_string(), group: Some("g".to_string()), tests: vec![] };
    assert!(plan_saved_tests(&p).is_none());
}
