use todo_list::codec::{decode_tasks, encode_tasks};
use todo_list::task::{add_task, Task};

#[test]
fn encode_empty_is_brackets() {
    let tasks: Vec<Task> = Vec::new();
    assert_eq!(encode_tasks(&tasks), "[]");
}

#[test]
fn decode_empty_brackets() {
    let tasks = decode_tasks("[]").expect("empty list should decode");
    assert_eq!(tasks.len(), 0);
}

#[test]
fn encode_known_text() {
    let mut tasks: Vec<Task> = Vec::new();
    add_task(&mut tasks, String::from("buy milk"));
    assert_eq!(encode_tasks(&tasks), "[{\"description\":\"buy milk\",\"done\":false}]");
}

#[test]
fn decode_known_text() {
    let tasks = decode_tasks("[{\"description\":\"buy milk\",\"done\":false}]")
        .expect("well-formed text should decode");
    assert_eq!(tasks.len(), 1);
    assert_eq!(tasks[0].description, "buy milk");
    assert!(!tasks[0].done);
}

#[test]
fn round_trip_multiple_tasks() {
    let mut tasks: Vec<Task> = Vec::new();
    add_task(&mut tasks, String::from("buy milk"));
    add_task(&mut tasks, String::from("water the plants"));
    add_task(&mut tasks, String::from("call home"));
    tasks[1].done = true;
    let text = encode_tasks(&tasks);
    let back = decode_tasks(&text).expect("an encoding should decode");
    assert_eq!(back.len(), 3);
    for (orig, loaded) in tasks.iter().zip(back.iter()) {
        assert_eq!(orig.description, loaded.description);
        assert_eq!(orig.done, loaded.done);
    }
}

#[test]
fn round_trip_escaped_description() {
    let mut tasks: Vec<Task> = Vec::new();
    add_task(&mut tasks, String::from("say \"hi\" \\ there\nnext\tline"));
    tasks[0].done = true;
    let text = encode_tasks(&tasks);
    let back = decode_tasks(&text).expect("an encoding should decode");
    assert_eq!(back.len(), 1);
    assert_eq!(back[0].description, "say \"hi\" \\ there\nnext\tline");
    assert!(back[0].done);
}

#[test]
fn round_trip_empty_description() {
    let mut tasks: Vec<Task> = Vec::new();
    add_task(&mut tasks, String::new());
    let text = encode_tasks(&tasks);
    assert_eq!(text, "[{\"description\":\"\",\"done\":false}]");
    let back = decode_tasks(&text).expect("an encoding should decode");
    assert_eq!(back[0].description, "");
}

#[test]
fn decode_garbage_is_none() {
    assert!(decode_tasks("").is_none());
    assert!(decode_tasks("not a list").is_none());
    assert!(decode_tasks("[").is_none());
    assert!(decode_tasks("[{]").is_none());
    assert!(decode_tasks("[{\"description\":\"x\",\"done\":tru}]").is_none());
    assert!(decode_tasks("[{\"description\":\"x\"}]").is_none());
    assert!(decode_tasks("{\"description\":\"x\",\"done\":true}").is_none());
}

#[test]
fn decode_rejects_trailing_text() {
    assert!(decode_tasks("[]x").is_none());
    assert!(decode_tasks("[{\"description\":\"x\",\"done\":true}],").is_none());
}

#[test]
fn decode_rejects_unknown_escape() {
    assert!(decode_tasks("[{\"description\":\"a\\qb\",\"done\":true}]").is_none());
    assert!(decode_tasks("[{\"description\":\"a\\\",\"done\":true}]").is_none());
}

#[test]
fn serde_json_reads_our_encoding() {
    let mut tasks: Vec<Task> = Vec::new();
    add_task(&mut tasks, String::from("buy \"raw\" milk"));
    add_task(&mut tasks, String::from("sweep"));
    tasks[1].done = true;
    let text = encode_tasks(&tasks);
    let value: serde_json::Value = serde_json::from_str(&text).expect("valid JSON");
    let items = value.as_array().expect("a JSON array");
    assert_eq!(items.len(), 2);
    assert_eq!(items[0].get("description").unwrap().as_str().unwrap(), "buy \"raw\" milk");
    assert_eq!(items[0].get("done").unwrap().as_bool().unwrap(), false);
    assert_eq!(items[1].get("description").unwrap().as_str().unwrap(), "sweep");
    assert_eq!(items[1].get("done").unwrap().as_bool().unwrap(), true);
}

#[test]
fn our_decoder_reads_serde_json_output() {
    let mut record = serde_json::Map::new();
    record.insert(
        String::from("description"),
        serde_json::Value::String(String::from("buy milk")),
    );
    record.insert(String::from("done"), serde_json::Value::Bool(false));
    let value = serde_json::Value::Array(vec![serde_json::Value::Object(record)]);
    let text = serde_json::to_string(&value).expect("serializing succeeds");
    let tasks = decode_tasks(&text).expect("the serialized form should decode");
    assert_eq!(tasks.len(), 1);
    assert_eq!(tasks[0].description, "buy milk");
    assert!(!tasks[0].done);

    let mut ours: Vec<Task> = Vec::new();
    add_task(&mut ours, String::from("buy milk"));
    assert_eq!(encode_tasks(&ours), text);
}
