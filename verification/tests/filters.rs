use rustful::filter::{ContextAction, ResponseAction};
use rustful::filter_stack::{
    actions_data, content_data, content_start, content_step, context_start, context_step, write_actions, ContentStep, ContextStep, EndPipeline, FilterCall,
    HeaderPipeline,
};
use rustful::response::Data;

fn next(text: &'static str) -> ResponseAction<'static> {
    ResponseAction::Next(Some(Data::from(text)))
}

fn describe(action: &ResponseAction) -> String {
    match action {
        ResponseAction::Next(Some(data)) => format!("next {}", String::from_utf8_lossy(data.as_bytes())),
        ResponseAction::Next(None) => "next".to_string(),
        ResponseAction::SilentAbort => "silent abort".to_string(),
        ResponseAction::Abort(e) => format!("abort {}", e),
    }
}

fn describe_call(call: &FilterCall) -> String {
    match call {
        FilterCall::Begin(i) => format!("begin {}", i),
        FilterCall::Write(i, Some(data)) => format!("write {} {}", i, String::from_utf8_lossy(data.as_bytes())),
        FilterCall::Write(i, None) => format!("write {}", i),
        FilterCall::End(i) => format!("end {}", i),
        FilterCall::Done => "done".to_string(),
    }
}

#[test]
fn written_queue_stops_at_a_silent_abort() {
    let queue = vec![next("ab"), ResponseAction::Next(None), next("c"), ResponseAction::SilentAbort, next("d")];
    let mut buffer = b"x".to_vec();
    assert_eq!(write_actions(&mut buffer, &queue), Ok(()));
    assert_eq!(buffer, b"xabc".to_vec());
}

#[test]
fn written_queue_fails_on_an_abort() {
    let queue = vec![next("ab"), ResponseAction::Abort("bad".to_string()), next("c")];
    let mut buffer = Vec::new();
    assert_eq!(write_actions(&mut buffer, &queue), Err("bad".to_string()));
}

#[test]
fn content_without_filters_comes_out_as_it_is() {
    match content_start(0, Data::from("hello")) {
        ContentStep::Finish(action) => assert_eq!(describe(&action), "next hello"),
        ContentStep::Write(..) => panic!("no filter to write"),
    }
}

#[test]
fn content_goes_through_every_filter() {
    match content_start(2, Data::from("hello")) {
        ContentStep::Write(0, Some(data)) => assert_eq!(data.as_bytes(), b"hello"),
        _ => panic!("the first filter writes first"),
    }
    match content_step(2, 0, next("HELLO")) {
        ContentStep::Write(1, Some(data)) => assert_eq!(data.as_bytes(), b"HELLO"),
        _ => panic!("the second filter writes next"),
    }
    match content_step(2, 1, ResponseAction::Next(None)) {
        ContentStep::Finish(action) => assert_eq!(describe(&action), "next"),
        ContentStep::Write(..) => panic!("no filter left"),
    }
}

#[test]
fn content_stops_at_the_first_abort() {
    match content_step(3, 0, ResponseAction::SilentAbort) {
        ContentStep::Finish(action) => assert_eq!(describe(&action), "silent abort"),
        ContentStep::Write(..) => panic!("stopped"),
    }
    match content_step(3, 1, ResponseAction::Abort("no".to_string())) {
        ContentStep::Finish(action) => assert_eq!(describe(&action), "abort no"),
        ContentStep::Write(..) => panic!("stopped"),
    }
}

#[test]
fn headers_go_through_every_filter() {
    let (mut pipeline, call) = HeaderPipeline::new(2, 200);
    assert_eq!(describe_call(&call), "begin 0");
    let call = pipeline.begun(201, next("h0"));
    assert_eq!(describe_call(&call), "write 0");
    let call = pipeline.written(next("w0"));
    assert_eq!(describe_call(&call), "begin 1");
    assert_eq!(pipeline.status, 201);
    let call = pipeline.begun(202, ResponseAction::Next(None));
    assert_eq!(describe_call(&call), "write 1 w0");
    let call = pipeline.written(next("x"));
    assert_eq!(describe_call(&call), "write 1 h0");
    let call = pipeline.written(ResponseAction::SilentAbort);
    assert_eq!(describe_call(&call), "done");
    let (status, queue) = pipeline.finish().expect("no abort");
    assert_eq!(status, 202);
    let queue: Vec<String> = queue.iter().map(describe).collect();
    assert_eq!(queue, vec!["next x", "silent abort", "next"]);
}

#[test]
fn headers_without_filters_queue_an_empty_result() {
    let (pipeline, call) = HeaderPipeline::new(0, 404);
    assert_eq!(describe_call(&call), "done");
    let (status, queue) = pipeline.finish().expect("no abort");
    assert_eq!(status, 404);
    assert_eq!(queue.iter().map(describe).collect::<Vec<_>>(), vec!["next"]);
}

#[test]
fn headers_stop_at_an_abort_from_begin() {
    let (mut pipeline, _) = HeaderPipeline::new(2, 200);
    let call = pipeline.begun(500, ResponseAction::Abort("no".to_string()));
    assert_eq!(describe_call(&call), "done");
    assert_eq!(pipeline.finish().err(), Some("no".to_string()));
}

#[test]
fn headers_stop_after_a_pass_that_meets_an_abort() {
    let (mut pipeline, _) = HeaderPipeline::new(2, 200);
    let call = pipeline.begun(200, ResponseAction::Next(None));
    assert_eq!(describe_call(&call), "write 0");
    let call = pipeline.written(ResponseAction::Abort("broken".to_string()));
    assert_eq!(describe_call(&call), "begin 1");
    let call = pipeline.begun(200, ResponseAction::Next(None));
    assert_eq!(describe_call(&call), "write 1");
    let call = pipeline.written(ResponseAction::Next(None));
    assert_eq!(describe_call(&call), "done");
    assert_eq!(pipeline.finish().err(), Some("broken".to_string()));
}

#[test]
fn end_outputs_go_through_the_later_filters() {
    let (mut pipeline, call) = EndPipeline::new(2);
    assert_eq!(describe_call(&call), "end 1");
    let call = pipeline.ended(next("e1"));
    assert_eq!(describe_call(&call), "end 0");
    let call = pipeline.ended(next("e0"));
    assert_eq!(describe_call(&call), "write 1 e0");
    let call = pipeline.written(next("y"));
    assert_eq!(describe_call(&call), "done");
    let queue = pipeline.finish().expect("no abort");
    assert_eq!(queue.iter().map(describe).collect::<Vec<_>>(), vec!["next y", "next e1"]);
}

#[test]
fn end_output_of_the_last_filter_goes_through_no_write() {
    let (mut pipeline, call) = EndPipeline::new(3);
    assert_eq!(describe_call(&call), "end 2");
    assert_eq!(describe_call(&pipeline.ended(next("e2"))), "end 1");
    assert_eq!(describe_call(&pipeline.ended(ResponseAction::SilentAbort)), "done");
    let queue = pipeline.finish().expect("no abort");
    assert_eq!(queue.iter().map(describe).collect::<Vec<_>>(), vec!["next e2"]);
}

#[test]
fn end_calls_stop_at_the_first_other_result() {
    let (mut pipeline, call) = EndPipeline::new(3);
    assert_eq!(describe_call(&call), "end 2");
    let call = pipeline.ended(ResponseAction::SilentAbort);
    assert_eq!(describe_call(&call), "done");
    assert!(pipeline.finish().expect("no abort").is_empty());
}

#[test]
fn end_without_filters_gives_nothing() {
    let (pipeline, call) = EndPipeline::new(0);
    assert_eq!(describe_call(&call), "done");
    assert!(pipeline.finish().expect("no abort").is_empty());
}

#[test]
fn end_queues_an_abort_from_the_last_filter() {
    let (mut pipeline, _) = EndPipeline::new(2);
    let call = pipeline.ended(next("e1"));
    assert_eq!(describe_call(&call), "end 0");
    let call = pipeline.ended(ResponseAction::Next(None));
    assert_eq!(describe_call(&call), "write 1");
    let call = pipeline.written(ResponseAction::Abort("late".to_string()));
    assert_eq!(describe_call(&call), "done");
    let queue = pipeline.finish().expect("no pass met an abort");
    assert_eq!(queue.iter().map(describe).collect::<Vec<_>>(), vec!["abort late", "next e1"]);
}

#[test]
fn end_fails_when_a_pass_meets_an_abort() {
    let (mut pipeline, _) = EndPipeline::new(3);
    assert_eq!(describe_call(&pipeline.ended(next("e2"))), "end 1");
    assert_eq!(describe_call(&pipeline.ended(next("e1"))), "end 0");
    assert_eq!(describe_call(&pipeline.ended(next("e0"))), "write 1 e0");
    assert_eq!(describe_call(&pipeline.written(ResponseAction::Abort("late".to_string()))), "write 2 e1");
    assert_eq!(describe_call(&pipeline.written(next("z"))), "done");
    assert_eq!(pipeline.finish().err(), Some("late".to_string()));
}

#[test]
fn context_without_filters_goes_on() {
    assert_eq!(context_start(0), ContextStep::Finish(ContextAction::Next));
    assert_eq!(context_start(2), ContextStep::Modify(0));
}

#[test]
fn context_goes_through_the_filters_until_an_abort() {
    assert_eq!(context_step(3, 0, ContextAction::next()), ContextStep::Modify(1));
    assert_eq!(context_step(3, 2, ContextAction::next()), ContextStep::Finish(ContextAction::Next));
    assert_eq!(context_step(3, 1, ContextAction::abort(403)), ContextStep::Finish(ContextAction::Abort(403)));
}

#[test]
fn queued_data_skips_silent_aborts_and_fails_on_an_abort() {
    let queue = vec![next("a"), ResponseAction::SilentAbort, ResponseAction::Next(None), next("b")];
    let data = actions_data(queue).expect("no abort");
    let data: Vec<&[u8]> = data.iter().map(|d| d.as_bytes()).collect();
    assert_eq!(data, vec![&b"a"[..], &b"b"[..]]);
    let queue = vec![next("a"), ResponseAction::Abort("no".to_string()), ResponseAction::Abort("late".to_string())];
    assert_eq!(actions_data(queue).err(), Some("no".to_string()));
    assert!(content_data(ResponseAction::SilentAbort).expect("no abort").is_none());
    assert_eq!(content_data(ResponseAction::Abort("x".to_string())).err(), Some("x".to_string()));
    assert_eq!(content_data(next("c")).expect("no abort").map(|d| d.as_bytes().to_vec()), Some(b"c".to_vec()));
}
