use preset_browser::playback::{Order, Worker, QUEUE_CAPACITY};

fn text(s: &str) -> String {
    String::from(s)
}

/// A sink that does what it is told.
fn carry_out(sink: &mut Vec<String>, order: Order) {
    match order {
        Order::Decode { clear, .. } => {
            if clear {
                sink.clear();
            }
        }
        Order::Play { path } => sink.push(path),
        Order::Skip => {}
    }
}

fn play(worker: &mut Worker, sink: &mut Vec<String>, path: &str, decodes: bool) {
    let busy = !sink.is_empty();
    let order = worker.request(text(path), busy);
    carry_out(sink, order);
    let order = worker.decoded(decodes);
    carry_out(sink, order);
}

#[test]
fn a_request_is_decoded_then_played() {
    let mut worker = Worker::new();
    match worker.request(text("a.ogg"), false) {
        Order::Decode { path, clear } => {
            assert_eq!(path, "a.ogg");
            assert!(!clear);
        }
        other => panic!("unexpected: {:?}", other),
    }
    match worker.decoded(true) {
        Order::Play { path } => assert_eq!(path, "a.ogg"),
        other => panic!("unexpected: {:?}", other),
    }
}

#[test]
fn a_busy_sink_is_cleared_first() {
    let mut worker = Worker::new();
    match worker.request(text("b.ogg"), true) {
        Order::Decode { path, clear } => {
            assert_eq!(path, "b.ogg");
            assert!(clear);
        }
        other => panic!("unexpected: {:?}", other),
    }
}

#[test]
fn the_second_of_two_requests_is_what_plays() {
    let mut worker = Worker::new();
    let mut sink: Vec<String> = Vec::new();
    play(&mut worker, &mut sink, "A.ogg", true);
    assert_eq!(sink, vec![text("A.ogg")]);
    play(&mut worker, &mut sink, "B.ogg", true);
    assert_eq!(sink, vec![text("B.ogg")]);
}

#[test]
fn a_file_that_does_not_decode_is_passed_over() {
    let mut worker = Worker::new();
    let mut sink: Vec<String> = Vec::new();
    play(&mut worker, &mut sink, "A.ogg", true);
    play(&mut worker, &mut sink, "broken.ogg", false);
    assert!(sink.is_empty());
    play(&mut worker, &mut sink, "C.ogg", true);
    assert_eq!(sink, vec![text("C.ogg")]);
}

#[test]
fn a_decoder_answer_without_request_is_passed_over() {
    let mut worker = Worker::new();
    assert!(matches!(worker.decoded(true), Order::Skip));
    worker.request(text("a.ogg"), false);
    assert!(matches!(worker.decoded(true), Order::Play { .. }));
    assert!(matches!(worker.decoded(true), Order::Skip));
}

#[test]
fn a_new_request_replaces_one_that_is_being_decoded() {
    let mut worker = Worker::new();
    worker.request(text("a.ogg"), false);
    worker.request(text("b.ogg"), false);
    match worker.decoded(true) {
        Order::Play { path } => assert_eq!(path, "b.ogg"),
        other => panic!("unexpected: {:?}", other),
    }
}

#[test]
fn the_queue_is_short() {
    assert_eq!(QUEUE_CAPACITY, 10);
}
