use pactlers::pactl::{pactl_volume, Channel, Class};

const SINK_INPUTS: &str = "Sink Input #12\n\
\tDriver: protocol-native.c\n\
\tProperties:\n\
\t\tapplication.name = \"Firefox\"\n\
\t\tmedia.name = \"AudioStream\"\n\
Sink Input #13\n\
\tProperties:\n\
\t\tapplication.name = \"VLC media player (LibVLC 3.0.20)\"\n\
Sink Input #27\n\
\tProperties:\n\
\t\tapplication.name = \"Firefox\"\n";

const SINKS: &str = "Sink #0\n\
\tState: RUNNING\n\
\tName: alsa_output.pci-0000_00_1f.3.analog-stereo\n\
\tProperties:\n\
\t\talsa.card_name = \"HDA Intel PCH\"\n\
Sink #1\n\
\tProperties:\n\
\t\talsa.card_name = \"USB Audio\"\n";

#[test]
fn class_texts() {
    assert_eq!(Class::App.class(), "sink-input");
    assert_eq!(Class::Mic.class(), "source");
    assert_eq!(Class::Spk.class(), "sink");
    assert_eq!(Class::App.id(), "Sink Input #");
    assert_eq!(Class::Mic.id(), "Source #");
    assert_eq!(Class::Spk.id(), "Sink #");
    assert_eq!(Class::App.name(), "application.name = ");
    assert_eq!(Class::Mic.name(), "alsa.card_name = ");
    assert_eq!(Class::Spk.name(), "alsa.card_name = ");
}

#[test]
fn command_words() {
    assert_eq!(Class::App.list_arg(), "sink-inputs");
    assert_eq!(Class::Mic.list_arg(), "sources");
    assert_eq!(Class::Spk.set_volume_arg(), "set-sink-volume");
    assert_eq!(Class::App.set_volume_arg(), "set-sink-input-volume");
    assert_eq!(Channel::new(Class::Mic, "BIRD").list_args(), vec!["list", "sources"]);
}

#[test]
fn volume_scales_twelve_bits_to_pactl() {
    assert_eq!(pactl_volume(0), "16");
    assert_eq!(pactl_volume(9), "160");
    assert_eq!(pactl_volume(4095), "65536");
    assert_eq!(pactl_volume(u16::MAX), "1048576");
}

#[test]
fn every_matching_application_is_found_in_order() {
    let c = Channel::new(Class::App, "Firefox");
    assert_eq!(c.targets(SINK_INPUTS), vec!["12", "27"]);
    let c = Channel::new(Class::App, "VLC");
    assert_eq!(c.targets(SINK_INPUTS), vec!["13"]);
    let c = Channel::new(Class::App, "snapclient");
    assert!(c.targets(SINK_INPUTS).is_empty());
}

#[test]
fn devices_match_on_card_name() {
    let c = Channel::new(Class::Spk, "HDA");
    assert_eq!(c.targets(SINKS), vec!["0"]);
    // an application name line is not a card name line
    let c = Channel::new(Class::Spk, "Firefox");
    assert!(c.targets(SINK_INPUTS).is_empty());
}

#[test]
fn set_commands() {
    let c = Channel::new(Class::App, "Firefox");
    assert_eq!(
        c.set_volume_args(4095, SINK_INPUTS),
        vec![
            vec!["set-sink-input-volume", "12", "65536"],
            vec!["set-sink-input-volume", "27", "65536"],
        ]
    );
}

#[test]
fn name_before_any_block_gets_empty_id() {
    let c = Channel::new(Class::App, "VLC");
    assert_eq!(c.targets("application.name = \"VLC\"\nSink Input #3\n"), vec![""]);
}

#[test]
fn lines_are_trimmed_of_unicode_white_space() {
    let c = Channel::new(Class::Spk, "HDA");
    let listing = "\u{3000} Sink #5 \r\n\u{a0}\talsa.card_name = \"HDA\"\u{2003}\r\n";
    assert_eq!(c.targets(listing), vec!["5"]);
}

#[test]
fn empty_name_matches_every_name_line() {
    let c = Channel::new(Class::Spk, "");
    assert_eq!(c.targets(SINKS), vec!["0", "1"]);
}

#[test]
fn empty_listing_has_no_targets() {
    let c = Channel::new(Class::Mic, "BIRD");
    assert!(c.targets("").is_empty());
    assert!(c.set_volume_args(100, "").is_empty());
}
