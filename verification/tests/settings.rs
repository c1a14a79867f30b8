use phantora::args::{parse_cores, Args, CoresError};
use phantora::cuda_call::{SplitResponse, SyncResponse};
use phantora::message::{message_kind, ExitJson, MessageError, MessageKind};
use phantora::simulator::hosts::ReplyBody;
use phantora::wire::reply_bytes;

fn args() -> Args {
    Args {
        net_config: "net.toml".to_string(),
        timeline_file: None,
        available_cores: None,
        disable_sequence_call: false,
        perf_db: None,
        record_perf_db: None,
    }
}

#[test]
fn cores_are_listed_one_by_one_and_in_ranges() {
    assert_eq!(parse_cores("2,4-6,8").unwrap(), vec![2, 4, 5, 6, 8]);
    assert_eq!(parse_cores("0").unwrap(), vec![0]);
    assert_eq!(parse_cores("7-7").unwrap(), vec![7]);
    assert_eq!(parse_cores("3-1,+5").unwrap(), vec![5]);
    assert_eq!(parse_cores("1,1").unwrap(), vec![1, 1]);
}

#[test]
fn lists_of_cores_that_are_none_are_refused() {
    match parse_cores("1-2-3") {
        Err(e) => assert_eq!(e.message(), ("Invalid core range", "1-2-3")),
        Ok(_) => panic!("accepted"),
    }
    for (list, part) in [("", ""), ("1,", ""), ("a", "a"), ("1-x", "x"), ("-2", ""), ("1, 2", " 2")] {
        match parse_cores(list) {
            Err(e @ CoresError::Number(_)) => assert_eq!(e.message(), ("Invalid core number", part)),
            _ => panic!("{list}"),
        }
    }
    assert!(parse_cores("18446744073709551616").is_err());
}

#[test]
fn replaying_and_recording_exclude_each_other() {
    let mut a = args();
    assert!(a.compatible() && !a.single_calls());
    a.perf_db = Some("db".to_string());
    assert!(a.compatible() && a.single_calls());
    a.record_perf_db = Some("db".to_string());
    assert!(!a.compatible());
    a.perf_db = None;
    assert!(a.compatible() && a.single_calls());
    a.record_perf_db = None;
    a.disable_sequence_call = true;
    assert!(a.single_calls());
}

#[test]
fn the_last_byte_tells_what_a_message_is() {
    assert_eq!(message_kind(&vec![9, 9, 1]), Ok((MessageKind::Cuda, 2)));
    assert_eq!(message_kind(&vec![2]), Ok((MessageKind::Torch, 0)));
    assert_eq!(message_kind(&vec![1, 3]), Ok((MessageKind::Exit, 1)));
    assert_eq!(message_kind(&vec![1, 4]), Err(MessageError::UnknownTag(4)));
    assert_eq!(message_kind(&vec![]), Err(MessageError::Empty));
}

#[test]
fn an_exit_names_the_thread_and_the_time() {
    let exit = ExitJson { pid: 7, tid: 8, hostname: "node".to_string(), cur: -9 };
    let (who, time) = exit.into_exit();
    assert_eq!((who.host.hostname.as_str(), who.host.pid, who.tid, time), ("node", 7, 8, -9));
}

#[test]
fn answers_are_sent_in_little_endian_bytes() {
    assert_eq!(
        reply_bytes(&ReplyBody::Sync(SyncResponse { end_time: -2 })),
        vec![254, 255, 255, 255, 255, 255, 255, 255]
    );
    assert_eq!(reply_bytes(&ReplyBody::Query(None)), vec![0]);
    assert_eq!(
        reply_bytes(&ReplyBody::Query(Some(258))),
        vec![1, 2, 1, 0, 0, 0, 0, 0, 0]
    );
    assert_eq!(reply_bytes(&ReplyBody::NoColor), vec![0]);
    assert_eq!(reply_bytes(&ReplyBody::UniqueId([7; 128])), vec![7; 128]);
    let split = SplitResponse {
        rank: 1,
        nranks: -1,
        id: [9; 128],
        sync: SyncResponse { end_time: 5 },
    };
    let mut bytes = vec![1, 0, 0, 0, 255, 255, 255, 255];
    bytes.extend([9u8; 128]);
    bytes.extend([5, 0, 0, 0, 0, 0, 0, 0]);
    assert_eq!(reply_bytes(&ReplyBody::Split(split)), bytes);
    assert_eq!(bincode::serialize(&(1i32, -1i32)).unwrap(), bytes[..8].to_vec());
}
