use beet::engine::{encode_response, plan, Action, EngineOutput};
use beet::request::EngineRequestError;
use beet::server::{next_frame, Frame};
use beet::storage::{shard_index, Storage};
use bytes::BytesMut;

/// Runs the client's bytes through framing, parsing and a set of shards at a fixed
/// instant, as the server does, and collects the replies.
fn serve(shards: &mut Vec<Storage>, input: &[u8], now: u128) -> Vec<u8> {
    let mut buf = BytesMut::from(input);
    let mut out = Vec::new();
    loop {
        match next_frame(&mut buf) {
            Frame::Incomplete => break,
            Frame::Blank => {}
            Frame::Command(cmd) => {
                let result: Result<EngineOutput, EngineRequestError> = match plan(&cmd) {
                    Action::Store { key, value, ttl } => {
                        let i = shard_index(&key, shards.len());
                        shards[i].set_at(key, value, ttl, now);
                        Ok(EngineOutput::StatusOk)
                    }
                    Action::Fetch { key } => {
                        let i = shard_index(&key, shards.len());
                        Ok(EngineOutput::from_lookup(shards[i].get_at(&key, now)))
                    }
                    Action::Reply(reply) => reply,
                };
                encode_response(&result, &mut out);
            }
        }
    }
    out
}

#[test]
fn get_after_set_returns_the_value() {
    let mut shards: Vec<Storage> = (0..4).map(|_| Storage::new()).collect();
    let replies = serve(&mut shards, b"SET key_1 cached_payload_data 5000\nGET key_1\nGET key_2\n", 1000);
    assert_eq!(replies, b"OK\nVALUE cached_payload_data\nNOT_FOUND\n".to_vec());
    assert_eq!(serve(&mut shards, b"GET key_1\r\n", 6000), b"VALUE cached_payload_data\n".to_vec());
    assert_eq!(serve(&mut shards, b"GET key_1\r\n", 6001), b"NOT_FOUND\n".to_vec());
}

#[test]
fn bad_lines_get_error_replies() {
    let mut shards: Vec<Storage> = (0..2).map(|_| Storage::new()).collect();
    let replies = serve(&mut shards, b"PING\n\nSET a b\nGET\nSET a b c\n", 0);
    assert_eq!(replies, b"ERROR\nERROR\nERROR\nERROR\n".to_vec());
}
