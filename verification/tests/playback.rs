use sdplay::descriptor::{CustomStreamSettings, Descriptor, Ipv4Endpoint};
use sdplay::preset::{load_presets, save_preset, Preset};
use sdplay::session::{PlaybackError, SessionManager, VOLUME_DEFAULT};

fn radio_descriptor() -> Descriptor {
    Descriptor::CustomStream(CustomStreamSettings {
        multicast_address: Ipv4Endpoint { a: 239, b: 1, c: 1, d: 1, port: 5004 },
        bit_depth: 16,
        channels: 2,
        sample_rate: 48000,
        packet_time_us: 1000,
    })
}

fn start_session(m: &mut SessionManager, d: &Descriptor) -> sdplay::session::PlaybackTask {
    m.request_play(d).unwrap();
    m.confirm_play(true).unwrap()
}

#[test]
fn valid_custom_stream_plays_and_reports_playing() {
    let mut m = SessionManager::new();
    assert!(!m.status().playing);
    start_session(&mut m, &radio_descriptor());
    assert!(m.status().playing);
}

#[test]
fn empty_raw_descriptor_is_rejected_before_any_resource() {
    let m = SessionManager::new();
    let r = m.request_play(&Descriptor::RawSdp(String::new()));
    assert_eq!(r.unwrap_err(), PlaybackError::Validation);
}

#[test]
fn zero_channels_are_rejected() {
    let m = SessionManager::new();
    let d = Descriptor::CustomStream(CustomStreamSettings {
        multicast_address: Ipv4Endpoint { a: 239, b: 0, c: 0, d: 1, port: 5004 },
        bit_depth: 16,
        channels: 0,
        sample_rate: 48000,
        packet_time_us: 1000,
    });
    assert_eq!(m.request_play(&d).unwrap_err(), PlaybackError::Validation);
}

#[test]
fn failed_establishment_is_surfaced_and_changes_nothing() {
    let mut m = SessionManager::new();
    m.request_play(&radio_descriptor()).unwrap();
    let r = m.confirm_play(false);
    assert_eq!(r.unwrap_err(), PlaybackError::StreamEstablish);
    assert!(!m.status().playing);
    assert_eq!(m.stop().unwrap_err(), PlaybackError::NoActiveSession);
}

#[test]
fn stop_with_no_session_ever_reports_no_active_session() {
    let mut m = SessionManager::new();
    assert_eq!(m.stop().unwrap_err(), PlaybackError::NoActiveSession);
}

#[test]
fn stop_is_idempotent_once_a_session_existed() {
    let mut m = SessionManager::new();
    let t = start_session(&mut m, &radio_descriptor());
    assert!(m.stop().is_ok());
    m.task_finished(&t);
    assert!(m.stop().is_ok());
    assert!(m.stop().is_ok());
}

#[test]
fn one_stop_reaches_every_outstanding_task() {
    let mut m = SessionManager::new();
    let t1 = start_session(&mut m, &radio_descriptor());
    let t2 = start_session(&mut m, &radio_descriptor());
    assert!(!t1.should_stop(&m));
    assert!(!t2.should_stop(&m));
    m.stop().unwrap();
    assert!(t1.should_stop(&m));
    assert!(t2.should_stop(&m));
}

#[test]
fn late_subscriber_misses_an_earlier_stop() {
    let mut m = SessionManager::new();
    let t1 = start_session(&mut m, &radio_descriptor());
    m.stop().unwrap();
    let t2 = start_session(&mut m, &radio_descriptor());
    assert!(t1.should_stop(&m));
    assert!(!t2.should_stop(&m));
    m.stop().unwrap();
    assert!(t2.should_stop(&m));
}

#[test]
fn finished_task_clears_the_slot_visibly() {
    let mut m = SessionManager::new();
    let t = start_session(&mut m, &radio_descriptor());
    assert!(m.status().playing);
    m.task_finished(&t);
    assert!(!m.status().playing);
}

#[test]
fn stale_task_exit_leaves_newer_session_current() {
    let mut m = SessionManager::new();
    let t1 = start_session(&mut m, &radio_descriptor());
    let _t2 = start_session(&mut m, &radio_descriptor());
    m.task_finished(&t1);
    assert!(m.status().playing);
}

#[test]
fn volume_out_of_range_is_invalid() {
    let mut m = SessionManager::new();
    start_session(&mut m, &radio_descriptor());
    assert_eq!(m.set_volume(1500).unwrap_err(), PlaybackError::InvalidVolume);
}

#[test]
fn volume_without_session_reports_no_active_session() {
    let mut m = SessionManager::new();
    assert_eq!(m.set_volume(500).unwrap_err(), PlaybackError::NoActiveSession);
}

#[test]
fn volume_defaults_to_half_and_keeps_the_last_set_level() {
    let mut m = SessionManager::new();
    assert_eq!(m.get_volume(), VOLUME_DEFAULT);
    start_session(&mut m, &radio_descriptor());
    m.set_volume(250).unwrap();
    assert_eq!(m.get_volume(), 250);
}

#[test]
fn saved_preset_resolves_plays_and_stops() {
    let p = Preset {
        name: String::from("radio"),
        source: Some(radio_descriptor()),
    };
    let doc = save_preset(p, None).unwrap();
    let store = load_presets(Some(doc.as_str())).unwrap();
    assert_eq!(1, store.len());
    let found = store.get("radio").cloned().unwrap();
    let d = found.source.unwrap();

    let mut m = SessionManager::new();
    let t = start_session(&mut m, &d);
    assert!(m.status().playing);
    m.stop().unwrap();
    assert!(t.should_stop(&m));
    m.task_finished(&t);
    assert!(!m.status().playing);
}
