use sdplay::descriptor::{CustomStreamSettings, Descriptor, Ipv4Endpoint};
use sdplay::preset::{save_preset, Preset, PresetError, PresetMap};

fn radio_settings() -> CustomStreamSettings {
    CustomStreamSettings {
        multicast_address: Ipv4Endpoint { a: 239, b: 1, c: 1, d: 1, port: 5004 },
        bit_depth: 16,
        channels: 2,
        sample_rate: 48000,
        packet_time_us: 1000,
    }
}

fn radio_preset() -> Preset {
    Preset {
        name: String::from("radio"),
        source: Some(Descriptor::CustomStream(radio_settings())),
    }
}

fn get_owned(m: &PresetMap, name: &str) -> Option<Preset> {
    m.get(name).cloned()
}

#[test]
fn load_presets() {
    let text = "- name: 5:radio\n  customStream:\n    multicastAddress: 239.1.1.1:5004\n    bitDepth: 16\n    channels: 2\n    sampleRate: 48000\n    packetTimeUs: 1000\n- name: 4:talk\n  sdpUrl: 24:http://example.com/a.sdp\n";
    let presets = sdplay::preset::load_presets(Some(text)).unwrap();
    assert_eq!(2, presets.len());
}

#[test]
fn empty_store_loads_as_empty_mapping() {
    let m = sdplay::preset::load_presets(None).unwrap();
    assert_eq!(0, m.len());
}

#[test]
fn corrupt_store_is_reported() {
    let r = sdplay::preset::load_presets(Some("not a preset document"));
    assert_eq!(r.unwrap_err(), PresetError::YamlError);
}

#[test]
fn empty_name_is_corrupt() {
    let r = sdplay::preset::load_presets(Some("- name: 0:\n"));
    assert_eq!(r.unwrap_err(), PresetError::YamlError);
}

#[test]
fn save_on_corrupt_store_propagates_error() {
    let r = save_preset(radio_preset(), Some("###"));
    assert_eq!(r.unwrap_err(), PresetError::YamlError);
}

#[test]
fn save_then_load_round_trips_all_fields() {
    let p = Preset {
        name: String::from("multi\nline"),
        source: Some(Descriptor::RawSdp(String::from("v=0\no=- 0 0 IN IP4 1.2.3.4\n"))),
    };
    let out = save_preset(p.clone(), None).unwrap();
    let m = sdplay::preset::load_presets(Some(out.as_str())).unwrap();
    assert_eq!(1, m.len());
    assert_eq!(Some(p), get_owned(&m, "multi\nline"));
}

#[test]
fn custom_stream_round_trips() {
    let p = radio_preset();
    let out = save_preset(p.clone(), None).unwrap();
    let m = sdplay::preset::load_presets(Some(out.as_str())).unwrap();
    assert_eq!(Some(p), get_owned(&m, "radio"));
}

#[test]
fn local_file_and_url_round_trip() {
    let f = Preset {
        name: String::from("disk"),
        source: Some(Descriptor::LocalSdpFile(String::from("/tmp/a.sdp"))),
    };
    let u = Preset {
        name: String::from("net"),
        source: Some(Descriptor::SdpUrl(String::from("http://example.com/a.sdp"))),
    };
    let out1 = save_preset(f.clone(), None).unwrap();
    let out2 = save_preset(u.clone(), Some(out1.as_str())).unwrap();
    let m = sdplay::preset::load_presets(Some(out2.as_str())).unwrap();
    assert_eq!(2, m.len());
    assert_eq!(Some(f), get_owned(&m, "disk"));
    assert_eq!(Some(u), get_owned(&m, "net"));
}

#[test]
fn incomplete_preset_round_trips() {
    let p = Preset { name: String::from("draft"), source: None };
    let out = save_preset(p.clone(), None).unwrap();
    let m = sdplay::preset::load_presets(Some(out.as_str())).unwrap();
    assert_eq!(Some(p), get_owned(&m, "draft"));
}

#[test]
fn second_save_under_same_name_wins() {
    let p1 = radio_preset();
    let p2 = Preset {
        name: String::from("radio"),
        source: Some(Descriptor::SdpUrl(String::from("http://example.com/radio.sdp"))),
    };
    let out1 = save_preset(p1, None).unwrap();
    let out2 = save_preset(p2.clone(), Some(out1.as_str())).unwrap();
    let m = sdplay::preset::load_presets(Some(out2.as_str())).unwrap();
    assert_eq!(1, m.len());
    assert_eq!(Some(p2), get_owned(&m, "radio"));
}

#[test]
fn two_saves_with_distinct_names_lose_neither() {
    let a = Preset { name: String::from("a"), source: Some(Descriptor::RawSdp(String::from("v=0"))) };
    let b = Preset { name: String::from("b"), source: Some(Descriptor::RawSdp(String::from("v=1"))) };

    let out1 = save_preset(a.clone(), None).unwrap();
    let out2 = save_preset(b.clone(), Some(out1.as_str())).unwrap();
    let m = sdplay::preset::load_presets(Some(out2.as_str())).unwrap();
    assert_eq!(2, m.len());
    assert_eq!(Some(a.clone()), get_owned(&m, "a"));
    assert_eq!(Some(b.clone()), get_owned(&m, "b"));

    let out1 = save_preset(b.clone(), None).unwrap();
    let out2 = save_preset(a.clone(), Some(out1.as_str())).unwrap();
    let m = sdplay::preset::load_presets(Some(out2.as_str())).unwrap();
    assert_eq!(2, m.len());
    assert_eq!(Some(a), get_owned(&m, "a"));
    assert_eq!(Some(b), get_owned(&m, "b"));
}

#[test]
fn missing_name_is_absent_from_mapping() {
    let out = save_preset(radio_preset(), None).unwrap();
    let m = sdplay::preset::load_presets(Some(out.as_str())).unwrap();
    assert!(m.get("nope").is_none());
}

#[test]
fn document_renders_expected_text() {
    let out = save_preset(radio_preset(), None).unwrap();
    let expected = "- name: 5:radio\n  customStream:\n    multicastAddress: 239.1.1.1:5004\n    bitDepth: 16\n    channels: 2\n    sampleRate: 48000\n    packetTimeUs: 1000\n";
    assert_eq!(expected, out);
}
