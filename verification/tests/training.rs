use std::ops::ControlFlow;

use hex_table::bb::Bitboard;
use hex_table::nn::model::{EvalResult, ModelConfig};
use hex_table::nn::search::Output;
use hex_table::nn::train::buffer::PositionsBuffer;
use hex_table::nn::train::client::{has_final_slash, log_line, ControllerClient, FetchModelData};
use hex_table::nn::train::codec::{push_le, read_le};
use hex_table::nn::train::error::{other_error, HttpError, TrainError};
use hex_table::nn::train::metrics::CounterLog;
use hex_table::nn::train::models::{ModelInfo, Models, Refusal};
use hex_table::nn::train::names::{
    checkpoint_name, classify_entry, sorted_checkpoints, EntryKind,
};
use hex_table::nn::train::optimizer::{can_step, Due, OptimizerClock};
use hex_table::nn::train::positions::{Position, Positions, PositionsError, SERIALIZED_LEN};
use hex_table::nn::train::retry::{Retry, RetryStrategy};
use hex_table::nn::train::selfplay::{
    keep_searching, EvaluatorMsg, EvaluatorQueue, EvaluatorStep, SelfPlayGame, Uploader,
    UploaderStep,
};
use hex_table::nn::train::settings::{
    parse_role, ControllerSettings, OptimizerSettings, Role, SelfPlaySettings, SettingsError,
};
use hex_table::nn::transform::Transpose;
use hex_table::util::F32;

fn f(x: f32) -> F32 {
    F32(x.to_bits())
}

fn position(n: u32) -> Position {
    Position {
        board: Bitboard::new().nth_child(n as usize % 121),
        value: f(n as f32),
        policy: (0..121).map(|i| F32(n.wrapping_mul(77).wrapping_add(i))).collect(),
    }
}

fn bytes_of(positions: &[Position]) -> Vec<u8> {
    let mut out = Vec::new();
    for p in positions {
        p.serialize_into(&mut out);
    }
    out
}

fn won() -> Bitboard {
    let mut b = Bitboard::new();
    for c in 0..11 {
        b = b.with_move(5, c).with_move(0, c);
    }
    b
}

#[test]
fn numbers_are_written_lowest_byte_first() {
    let mut out = Vec::new();
    push_le(&mut out, 0x0102_0304, 4);
    assert_eq!(out, vec![4, 3, 2, 1]);
    push_le(&mut out, u128::MAX - 1, 16);
    assert_eq!(out[4..], (u128::MAX - 1).to_le_bytes());
    assert_eq!(read_le(&out, 0, 4), 0x0102_0304);
    assert_eq!(read_le(&out, 4, 16), u128::MAX - 1);
    assert_eq!(read_le(&out, 1, 2), 0x0203);
}

#[test]
fn positions_come_back_from_their_bytes() {
    let p = position(123456);
    let mut out = vec![9];
    p.serialize_into(&mut out);
    assert_eq!(out.len(), 1 + SERIALIZED_LEN);
    assert_eq!(out[1..17], p.board.black.to_le_bytes());
    assert_eq!(out[17..33], p.board.white.to_le_bytes());
    assert_eq!(out[33..37], 123456f32.to_le_bytes());
    let q = Position::deserialize_from(&out[1..]);
    assert_eq!((q.board.black, q.board.white), (p.board.black, p.board.white));
    assert_eq!(q.value, p.value);
    assert_eq!(q.policy, p.policy);
    let any: Vec<u8> = (0..520).map(|i| (i * 7 % 256) as u8).collect();
    assert_eq!(bytes_of(&[Position::deserialize_from(&any)]), any);
}

#[test]
fn positions_are_transformed_whole() {
    let mut p = position(5);
    let before = p.clone();
    p.apply_transform(&Transpose);
    assert_eq!(p.value, f(-5.0));
    assert_eq!(p.policy[1], before.policy[11]);
    assert_eq!(p.board.rc(5, 0), Some(false));
}

#[test]
fn files_hold_whole_positions() {
    assert_eq!(Positions::open(519).unwrap_err(), PositionsError::FileSize);
    let mut file = Positions::open(1040).unwrap();
    assert_eq!(file.len(), 2);
    assert_eq!(file.push_serialized_many(&[0; 521]), Err(PositionsError::DataSize));
    assert_eq!(file.len(), 2);
    assert_eq!(file.push_serialized_many(&[0; 520]), Ok(()));
    assert_eq!(file.len(), 3);
    assert_eq!(file.read_serialized_range(1, None), (520, 1560, 3));
    assert_eq!(file.read_serialized_range(1, Some(2)), (520, 1040, 2));
    assert_eq!(file.read_serialized_range(2, Some(1)), (520, 520, 1));
    assert_eq!(file.read_serialized_range(7, Some(9)), (1560, 1560, 3));
}

#[test]
fn reads_go_on_where_the_last_one_ended() {
    let mut file = bytes_of(&[position(1), position(2)]);
    let mut index = Positions::open(file.len()).unwrap();
    let (a0, a1, end) = index.read_serialized_range(1, None);
    let first = file[a0..a1].to_vec();
    let more = bytes_of(&[position(3)]);
    index.push_serialized_many(&more).unwrap();
    file.extend_from_slice(&more);
    let (b0, b1, _) = index.read_serialized_range(end, None);
    assert_eq!(file[b0..b1], more);
    let (c0, c1, _) = index.read_serialized_range(1, None);
    assert_eq!(file[c0..c1], [first, more].concat());
}

#[test]
fn the_buffer_keeps_the_most_recent() {
    let mut buffer = PositionsBuffer::new(3);
    assert_eq!(buffer.wanted(), -3);
    assert_eq!(buffer.count(), 0);
    assert!(buffer.sample(5).is_empty());
    let data = bytes_of(&[position(1), position(2)]);
    assert_eq!(buffer.absorb(Some(10), &data), 2);
    assert_eq!(buffer.wanted(), 10);
    assert_eq!(buffer.count(), 2);
    let data = bytes_of(&[position(3), position(4), position(5), position(6)]);
    assert_eq!(buffer.absorb(None, &data), 4);
    assert_eq!(buffer.cursor, None);
    assert_eq!(buffer.count(), 3);
    let mut values: Vec<u32> = buffer.items.iter().map(|p| f32::from_bits(p.value.0) as u32).collect();
    values.rotate_left(buffer.next);
    assert_eq!(values, vec![4, 5, 6]);
    let picked = buffer.pick(&vec![2, 0, 2]);
    assert_eq!(picked[0].value, picked[2].value);
    assert_eq!(picked[1].value, buffer.items[0].value);
    let drawn = buffer.sample(50);
    assert_eq!(drawn.len(), 50);
    assert!(drawn.iter().all(|p| f32::from_bits(p.value.0) >= 4.0));
    assert!(drawn.iter().any(|p| p.value != drawn[0].value));
}

#[test]
fn server_failures_are_retried() {
    let http = |status: Option<u16>| {
        TrainError::Http(HttpError { status, message: "down".to_string() })
    };
    assert!(http(None).is_retryable());
    assert!(http(Some(500)).is_retryable());
    assert!(http(Some(599)).is_retryable());
    assert!(!http(Some(404)).is_retryable());
    assert!(!http(Some(600)).is_retryable());
    assert!(!other_error("x").is_retryable());
    assert_eq!(http(None).text(), "http: down");
    assert_eq!(other_error("x").text(), "x");
    assert!(TrainError::continue_if_retryable(http(Some(503))).is_continue());
    match TrainError::continue_if_retryable(other_error("stop")) {
        ControlFlow::Break(e) => assert_eq!(e.text(), "stop"),
        ControlFlow::Continue(_) => panic!("this cannot be retried"),
    }
}

#[test]
fn attempts_are_a_second_apart() {
    let mut retry = RetryStrategy {}.attempts();
    assert_eq!(retry.next(), None);
    assert_eq!(retry.next(), Some(1000));
    assert_eq!(retry.next(), Some(1000));
    let inspect = |e: i32| if e < 0 { ControlFlow::Break(e) } else { ControlFlow::Continue(()) };
    assert_eq!(retry.after(Ok::<u8, i32>(7), &inspect), ControlFlow::Break(Ok(7)));
    assert_eq!(retry.after(Err::<u8, i32>(-1), &inspect), ControlFlow::Break(Err(-1)));
    assert_eq!(retry.after(Err::<u8, i32>(1), &inspect), ControlFlow::Continue(1000));
    assert!(Retry::new().first);
}

#[test]
fn counters_forget_after_ten_minutes() {
    const SECOND: u64 = 1_000_000_000;
    let mut log = CounterLog::new(0);
    assert_eq!(log.latest(), 0);
    assert_eq!(log.growth(), None);
    log.report(10 * SECOND, 50);
    assert_eq!(log.growth(), Some((50, 10 * SECOND)));
    log.report(600 * SECOND, 70);
    assert_eq!(log.log.len(), 3);
    // Six hundred whole seconds are not too old, six hundred and one are.
    log.report(601 * SECOND - 1, 80);
    assert_eq!(log.log.len(), 4);
    log.report(601 * SECOND, 90);
    assert_eq!(log.log.len(), 4);
    assert_eq!(log.count(), 40);
    assert_eq!(log.latest(), 90);
    log.report(10_000 * SECOND, 95);
    assert_eq!(log.log, vec![(10_000 * SECOND, 95)]);
    assert_eq!(log.growth(), None);
}

#[test]
fn addresses_are_put_together() {
    let client = ControllerClient::new("http://host".to_string());
    assert_eq!(client.list_models(), "http://host");
    assert_eq!(client.create_model(), "http://host/api/model");
    assert_eq!(client.fetch_config("m"), "http://host/api/model/m/config");
    assert_eq!(client.fetch_model_data("m"), "http://host/api/model/m/params/latest");
    assert_eq!(client.fetch_positions("m", None), "http://host/api/model/m/positions");
    assert_eq!(client.fetch_positions("m", Some(12)), "http://host/api/model/m/positions?start=12");
    assert_eq!(client.fetch_positions("m", Some(-5)), "http://host/api/model/m/positions?start=-5");
    assert!(client.fetch_positions("m", Some(isize::MIN)).ends_with(&format!("={}", isize::MIN)));
    assert_eq!(client.upload_positions("m"), "http://host/api/model/m/positions");
    assert_eq!(client.upload_params("m"), "http://host/api/model/m/params");
    assert!(has_final_slash("http://host/"));
    assert!(!has_final_slash("http://host"));
    assert!(!has_final_slash(""));
}

#[test]
fn answers_are_understood() {
    let data = FetchModelData::from_response(200, Some("tag".to_string()), vec![1, 2]);
    assert_eq!(data.into_data(), Some((Some("tag".to_string()), vec![1, 2])));
    assert_eq!(FetchModelData::from_response(304, None, vec![]).into_data(), None);
    let (end, data) = ControllerClient::positions_from(Some("12"), vec![0; 1040]).unwrap();
    assert_eq!((end, data.len()), (Some(12), 1040));
    assert_eq!(ControllerClient::positions_from(Some("x"), vec![]).unwrap().0, None);
    assert_eq!(ControllerClient::positions_from(None, vec![]).unwrap().0, None);
    let e = ControllerClient::positions_from(None, vec![0; 3]).unwrap_err();
    assert_eq!(e.text(), "data length not a multiple of SERIALIZED_LEN");
    assert_eq!(log_line("now", "c", Some(7), "0.5", 9), "now,c,7,0.5,9\n");
    assert_eq!(log_line("now", "c", None, "", 0), "now,c,,,0\n");
}

#[test]
fn directory_entries_are_told_apart() {
    assert_eq!(classify_entry("checkpoint-1", true), EntryKind::Checkpoint);
    assert_eq!(classify_entry("checkpoint-1", false), EntryKind::NotAFile);
    assert_eq!(classify_entry("config.json", true), EntryKind::Known);
    assert_eq!(classify_entry("positions", true), EntryKind::Known);
    assert_eq!(classify_entry("train-log.txt", true), EntryKind::Known);
    assert_eq!(classify_entry("checkpoint", true), EntryKind::Strange);
    let entries: Vec<(String, bool)> = ["checkpoint-b", "config.json", "checkpoint-a", "checkpoint-ab", "checkpoint-a"]
        .iter()
        .map(|n| (n.to_string(), true))
        .chain([("checkpoint-0".to_string(), false)])
        .collect();
    let mut expected: Vec<String> = entries
        .iter()
        .filter(|(n, is_file)| *is_file && n.starts_with("checkpoint-"))
        .map(|e| e.0.clone())
        .collect();
    expected.sort();
    assert_eq!(sorted_checkpoints(&entries), expected);
    assert_eq!(expected.len(), 4);
}

#[test]
fn checkpoints_are_named_by_number_and_content() {
    assert_eq!(checkpoint_name(7, &vec![0x00, 0x0a, 0xbc, 0xde, 9]), "checkpoint-00007-000abcde");
    assert_eq!(checkpoint_name(123456, &vec![255; 32]), "checkpoint-123456-ffffffff");
    let names: Vec<String> = [0, 9, 10, 99, 100, 99998, 99999]
        .iter()
        .map(|n| checkpoint_name(*n, &vec![(255 - n % 256) as u8; 4]))
        .collect();
    let mut sorted = names.clone();
    sorted.sort();
    assert_eq!(names, sorted);
}

fn registry() -> Models {
    let mut models = Models::new();
    let info = ModelInfo::init(ModelConfig::new(1, 2, 3), Positions::open(0).unwrap());
    assert!(models.insert(info));
    models
}

#[test]
fn models_are_stored_under_their_names() {
    let mut models = registry();
    let again = ModelInfo::init(ModelConfig::new(1, 2, 3), Positions::open(0).unwrap());
    assert!(!models.insert(again));
    assert_eq!(models.create_model(ModelConfig::new(1, 2, 3)), ("v0-1-2-3".to_string(), false));
    assert_eq!(models.create_model(ModelConfig::new(3, 2, 1)), ("v0-3-2-1".to_string(), true));
    assert_eq!(models.get_config("v0-1-2-3"), Ok(ModelConfig::new(1, 2, 3)));
    assert_eq!(models.get_config("v0"), Err(Refusal::NotFound));
    let entries = vec![("checkpoint-00000-00000000".to_string(), true), ("x".to_string(), true)];
    let loaded = ModelInfo::load(
        "other".to_string(),
        &entries,
        ModelConfig::new(9, 9, 9),
        Positions::open(520).unwrap(),
    );
    assert_eq!(loaded.latest().unwrap(), "checkpoint-00000-00000000");
    assert!(models.insert(loaded));
    let mut ids: Vec<(String, usize)> =
        models.list().models.iter().map(|m| (m.id.clone(), m.checkpoints.len())).collect();
    ids.sort();
    assert_eq!(ids, vec![("other".to_string(), 1), ("v0-1-2-3".to_string(), 0)]);
    assert_eq!(Refusal::NotModified.code(), 304);
    assert_eq!(Refusal::BadRequest.code(), 400);
    assert_eq!(Refusal::NotFound.code(), 404);
    assert_eq!(Refusal::Internal.code(), 500);
}

#[test]
fn parameters_are_served_until_newer_ones_come() {
    let mut models = registry();
    let id = "v0-1-2-3";
    assert_eq!(models.get_params_latest(id, None), Err(Refusal::NotFound));
    // The hash of "abc" starts with ba7816bf.
    let name = models.post_params(id, b"abc").unwrap();
    assert_eq!(name, "checkpoint-00000-ba7816bf");
    let (found, tag) = models.get_params_latest(id, None).unwrap();
    assert_eq!(found, name);
    assert_eq!(tag, "\"checkpoint-00000-ba7816bf\"");
    assert_eq!(models.get_params_latest(id, Some(&tag)), Err(Refusal::NotModified));
    // The hash of nothing starts with e3b0c442.
    assert_eq!(models.post_params(id, b"").unwrap(), "checkpoint-00001-e3b0c442");
    assert_eq!(models.get_params_latest(id, Some(&tag)).unwrap().0, "checkpoint-00001-e3b0c442");
    assert_eq!(models.post_params("none", b""), Err(Refusal::NotFound));
    assert_eq!(models.get_params_latest("none", None), Err(Refusal::NotFound));
}

#[test]
fn positions_are_served_from_where_they_are_asked_for() {
    let mut models = registry();
    let id = "v0-1-2-3";
    assert_eq!(models.post_positions(id, &[0; 1]), Err(Refusal::BadRequest));
    assert_eq!(models.post_positions("none", &[0; 520]), Err(Refusal::NotFound));
    assert_eq!(models.post_positions(id, &[0; 5200]), Ok(()));
    assert_eq!(models.get_positions(id, None), Ok((0, 5200, 10)));
    assert_eq!(models.get_positions(id, Some(3)), Ok((1560, 5200, 10)));
    assert_eq!(models.get_positions(id, Some(-3)), Ok((3640, 5200, 10)));
    assert_eq!(models.get_positions(id, Some(-30)), Ok((0, 5200, 10)));
    assert_eq!(models.get_positions(id, Some(30)), Ok((5200, 5200, 10)));
    assert_eq!(models.get_positions("none", None), Err(Refusal::NotFound));
}

#[test]
fn batches_are_filled() {
    let mut queue: EvaluatorQueue<u8> = EvaluatorQueue::new(2);
    let config = ModelConfig::new(1, 1, 1);
    assert!(EvaluatorQueue::<u8>::first(EvaluatorMsg::ModelUpdated(vec![])).is_none());
    assert_eq!(
        EvaluatorQueue::<u8>::first(EvaluatorMsg::Init(config, vec![5])),
        Some((config, vec![5]))
    );
    assert!(matches!(queue.step(EvaluatorMsg::Init(config, vec![])), EvaluatorStep::Unexpected));
    match queue.step(EvaluatorMsg::ModelUpdated(vec![1])) {
        EvaluatorStep::Load(data) => assert_eq!(data, vec![1]),
        _ => panic!("the model was updated"),
    }
    let b = Bitboard::new();
    assert!(matches!(queue.step(EvaluatorMsg::Queue(b, 7)), EvaluatorStep::Wait));
    match queue.step(EvaluatorMsg::Queue(b.with_move(0, 0), 8)) {
        EvaluatorStep::Run(reqs, rets) => {
            assert_eq!(reqs.len(), 2);
            assert_eq!(reqs[1].board.depth(), 1);
            assert_eq!(rets, vec![7, 8]);
            let results = (0..2)
                .map(|i| EvalResult { policy: vec![], value: f(i as f32) })
                .collect();
            let replies = EvaluatorQueue::replies(rets, results);
            assert_eq!(replies[0].0, 7);
            assert_eq!(replies[1].1.value, f(1.0));
        }
        _ => panic!("there are enough boards"),
    }
    assert!(queue.reqs.is_empty());
    assert!(matches!(queue.step(EvaluatorMsg::Queue(b, 9)), EvaluatorStep::Wait));
    let (reqs, rets) = queue.timeout();
    assert_eq!((reqs.len(), rets), (1, vec![9]));
}

fn output(sample: Bitboard, best: Bitboard) -> Output {
    Output {
        board_sample: sample,
        board_best: best,
        policy: vec![f(0.5); 121],
        values: vec![f(0.0); 121],
        value_sample: f(0.0),
        value_best: f(0.0),
    }
}

#[test]
fn moves_are_drawn_early_in_a_game() {
    let mut game = SelfPlayGame::new();
    assert_eq!(game.winner(), None);
    for n in 0..40 {
        let sample = game.board.nth_child(n);
        let best = game.board.nth_child(120 - n);
        game.advance(output(sample, best));
        let expected = if n < 29 { sample } else { best };
        assert_eq!(game.board.black, expected.black);
        assert_eq!(game.board.white, expected.white);
        assert_eq!(game.log.len(), n + 1);
    }
    assert!(keep_searching(799, 800));
    assert!(!keep_searching(800, 800));
}

#[test]
fn finished_games_become_positions() {
    let mut game = SelfPlayGame::new();
    assert!(game.positions().is_none());
    let policy: Vec<F32> = (0..121).map(|n| f(n as f32)).collect();
    let first = game.board.with_move(0, 3);
    game.record(first, policy.clone());
    game.record(won(), policy.clone());
    let positions = game.positions().unwrap();
    assert_eq!(positions.len(), 2);
    assert_eq!(positions[0].value, f(1.0));
    assert_eq!(positions[0].policy, policy);
    // Gote's position is transposed, and lost.
    assert_eq!(positions[1].value, f(-1.0));
    assert!(positions[1].board.sente());
    assert_eq!(positions[1].board.rc(3, 0), Some(false));
    assert_eq!(positions[1].policy[1], f(11.0));
}

#[test]
fn positions_are_sent_in_bulk() {
    let policy: Vec<F32> = vec![f(0.0); 121];
    let log: Vec<(Bitboard, Vec<F32>)> =
        (0..1000).map(|n| (Bitboard::new().nth_child(n % 121), policy.clone())).collect();
    let mut uploader = Uploader::new();
    assert!(matches!(uploader.timeout(), UploaderStep::Wait));
    assert!(matches!(uploader.queue(&log, Bitboard::new()), UploaderStep::NotFinal));
    assert!(matches!(uploader.timeout(), UploaderStep::Wait));
    assert!(matches!(uploader.queue(&log, won()), UploaderStep::Wait));
    match uploader.queue(&log, won()) {
        UploaderStep::Upload(data) => {
            assert_eq!(data.len(), 2000 * 520);
            let p = Position::deserialize_from(&data[..520]);
            assert!(p.board.sente());
            assert_eq!(p.value, f(-1.0));
        }
        _ => panic!("there is more than a million bytes"),
    }
    assert!(matches!(uploader.timeout(), UploaderStep::Wait));
    assert!(matches!(uploader.queue(&log[..1].to_vec(), won()), UploaderStep::Wait));
    match uploader.timeout() {
        UploaderStep::Upload(data) => assert_eq!(data.len(), 520),
        _ => panic!("a game waits"),
    }
}

#[test]
fn roles_have_names() {
    assert_eq!(parse_role("controller"), Some(Role::Controller));
    assert_eq!(parse_role("optimizer"), Some(Role::Optimizer));
    assert_eq!(parse_role("selfplay"), Some(Role::SelfPlay));
    assert_eq!(parse_role("Controller"), None);
}

#[test]
fn a_controller_has_defaults() {
    let s = ControllerSettings::load(None, None).unwrap();
    assert_eq!((s.root.as_str(), s.port), ("data", 3000));
    let s = ControllerSettings::load(Some("x"), Some("80")).unwrap();
    assert_eq!((s.root.as_str(), s.port), ("x", 80));
    assert_eq!(ControllerSettings::load(None, Some("65536")).unwrap_err(), SettingsError::Port);
}

#[test]
fn self_play_is_set_up() {
    let load = SelfPlaySettings::load;
    let url = Some("http://h");
    let m = Some("m");
    let s = load(url, m, None, None, None).unwrap();
    assert_eq!((s.batch_evals, s.concurrency, s.iters), (32, 128, 800));
    assert_eq!((s.controller_url.as_str(), s.model_id.as_str()), ("http://h", "m"));
    let fault = |url, m, b, c, i| load(url, m, b, c, i).unwrap_err();
    assert_eq!(fault(None, m, None, None, None), SettingsError::ControllerUrlMissing);
    assert_eq!(fault(Some("h/"), m, None, None, None), SettingsError::ControllerUrlSlash);
    assert_eq!(fault(url, None, None, None, None), SettingsError::ModelIdMissing);
    assert_eq!(fault(url, m, Some("x"), None, None), SettingsError::BatchEvals);
    assert_eq!(fault(url, m, None, Some("-1"), None), SettingsError::Concurrency);
    assert_eq!(fault(url, m, None, None, Some("")), SettingsError::Iters);
    assert_eq!(fault(url, m, Some("128"), None, None), SettingsError::ConcurrencyTooLow);
    assert_eq!(load(url, m, Some("127"), None, Some("5")).unwrap().iters, 5);
}

#[test]
fn an_optimizer_is_set_up() {
    let load = OptimizerSettings::load;
    let url = Some("http://h");
    let m = Some("m");
    let s = load(url, m, None, None, None).unwrap();
    assert_eq!((s.max_positions, s.upload_interval_secs, s.batch_size), (500000, 300, 256));
    assert_eq!(load(None, m, Some("x"), None, None).unwrap_err(), SettingsError::ControllerUrlMissing);
    assert_eq!(load(Some("h/"), m, Some("x"), None, None).unwrap_err(), SettingsError::MaxPositions);
    assert_eq!(load(Some("h/"), m, None, None, None).unwrap_err(), SettingsError::ControllerUrlSlash);
    assert_eq!(load(url, None, None, None, None).unwrap_err(), SettingsError::ModelIdMissing);
    assert_eq!(load(url, m, None, Some("x"), None).unwrap_err(), SettingsError::UploadInterval);
    assert_eq!(load(url, m, None, None, Some("x")).unwrap_err(), SettingsError::BatchSize);
}

#[test]
fn an_optimizer_reports_and_uploads_in_time() {
    assert!(!can_step(255, 256));
    assert!(can_step(256, 256));
    let mut clock = OptimizerClock::new(1000, 2);
    assert_eq!(clock.stepped(1999), Due { print: None, upload: false });
    assert_eq!(clock.stepped(2000), Due { print: Some(2), upload: false });
    assert_eq!(clock.stepped(2500), Due { print: None, upload: false });
    assert_eq!(clock.stepped(3000), Due { print: Some(2), upload: true });
    assert_eq!(clock.stepped(4999), Due { print: Some(1), upload: false });
    assert_eq!(clock.total_iters, 5);
}

#[test]
fn failures_are_tried_again() {
    // How often it was tried, and how long it was waited.
    type World = (u32, u64);
    let sleep = |(tries, slept): World, millis: u64| (tries, slept + millis);
    let inspect = |e: u32| if e < 3 { ControlFlow::Continue(()) } else { ControlFlow::Break(e * 10) };
    let succeeds_at = |n: u32| {
        let body = |(tries, slept): World| {
            let tries = tries + 1;
            ((tries, slept), if tries == n { Ok("done") } else { Err(tries) })
        };
        RetryStrategy {}.attempt((0, 0), &body, &inspect, &sleep)
    };
    assert_eq!(succeeds_at(1), ((1, 0), Some(Ok("done"))));
    assert_eq!(succeeds_at(3), ((3, 2000), Some(Ok("done"))));
    // The third failure cannot be gone on from.
    assert_eq!(succeeds_at(9), ((3, 2000), Some(Err(30))));
}

#[test]
fn a_game_is_played_to_its_end() {
    let policy = vec![f(0.0); 121];
    let first_free = |board: Bitboard| {
        let n = (0..121).find(|n| board.nth_child_valid(*n)).unwrap();
        (board.nth_child(n), policy.clone())
    };
    // The stones form a checkerboard, until sente's long diagonal is complete.
    let game = SelfPlayGame::play(&first_free).unwrap_or_else(|_| panic!("the game is over"));
    assert_eq!(game.winner(), Some(true));
    assert_eq!(game.log.len(), 111);
    assert_eq!(game.log[0].0.depth(), 0);
    for (i, (board, _)) in game.log.iter().enumerate() {
        assert_eq!(board.depth(), i);
        assert_eq!(board.win(), None);
    }
    let positions = game.positions().unwrap();
    assert_eq!(positions.len(), 111);
    assert_eq!(positions[0].value, f(1.0));
    assert_eq!(positions[1].value, f(-1.0));
}

#[test]
fn polls_go_on_from_one_answer_to_the_next() {
    let mut buffer = PositionsBuffer::new(3);
    let asked = std::cell::RefCell::new(Vec::new());
    let answers = [
        (Some(4), vec![position(1), position(2)]),
        (None, vec![position(3), position(4)]),
        (Some(9), vec![]),
    ];
    let fetch = |start: isize| -> Result<(Option<usize>, Vec<u8>), &str> {
        let n = asked.borrow().len();
        asked.borrow_mut().push(start);
        match answers.get(n) {
            Some((cursor, positions)) => Ok((*cursor, bytes_of(positions))),
            None => Err("gone"),
        }
    };
    assert_eq!(buffer.poll(&fetch), Ok(2));
    assert_eq!(buffer.count(), 2);
    assert_eq!(buffer.poll(&fetch), Ok(2));
    assert_eq!(buffer.count(), 3);
    assert_eq!(buffer.poll(&fetch), Ok(0));
    // A failure leaves the buffer as it is.
    assert_eq!(buffer.poll(&fetch), Err("gone"));
    assert_eq!((buffer.count(), buffer.cursor), (3, Some(9)));
    assert_eq!(asked.into_inner(), vec![-3, 4, -3, 9]);
    let mut values: Vec<u32> =
        buffer.items.iter().map(|p| f32::from_bits(p.value.0) as u32).collect();
    values.sort();
    assert_eq!(values, vec![2, 3, 4]);
    // Bytes that do not make a position are passed over.
    let mut odd = bytes_of(&[position(7)]);
    odd.extend([0; 5]);
    assert_eq!(buffer.absorb(Some(10), &odd), 1);
}
