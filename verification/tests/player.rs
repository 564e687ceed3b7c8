use thesia::player::{
    choose_output_config, get_optimal_sr, output_buffer_size, seek_action, tick_report, DeviceAction,
    OutputChoice, OutputConfigRange, PlayerControl, PositionSource, SeekAction, TickReport, DEFAULT_SR,
};

#[test]
fn optimal_sr_prefers_the_rate_itself_then_greater_then_lesser() {
    assert_eq!(get_optimal_sr(0, &[44100, 48000]), None);
    assert_eq!(get_optimal_sr(44100, &[48000, 44100, 96000]), Some(44100));
    assert_eq!(get_optimal_sr(44100, &[96000, 8000, 48000, 22050]), Some(48000));
    assert_eq!(get_optimal_sr(44100, &[8000, 22050, 32000]), Some(32000));
    assert_eq!(get_optimal_sr(44100, &[]), None);
    assert_eq!(get_optimal_sr(44100, &[0, u32::MAX]), None);
    assert_eq!(get_optimal_sr(44100, &[u32::MAX, 22050]), Some(22050));
}

fn range(channels: u16, min: u32, max: u32, is_f32: bool) -> OutputConfigRange {
    OutputConfigRange { channels, min_sample_rate: min, max_sample_rate: max, is_f32, min_buffer_size: None }
}

#[test]
fn the_best_ranked_output_config_is_chosen() {
    let configs = [range(1, 8000, 96000, true), range(2, 8000, 96000, false), range(2, 8000, 96000, true)];
    assert_eq!(choose_output_config(&configs, None), Some(OutputChoice { config: 2, sample_rate: 48000 }));
    let configs = [range(2, 8000, 48000, true)];
    // the range end is not taken as covered
    assert_eq!(choose_output_config(&configs, None), Some(OutputChoice { config: 0, sample_rate: 44100 }));
    assert_eq!(
        choose_output_config(&configs, Some(vec![96000, 192000])),
        Some(OutputChoice { config: 0, sample_rate: 48000 })
    );
    let configs = [range(2, 88200, 192000, true)];
    assert_eq!(
        choose_output_config(&configs, Some(Vec::new())),
        Some(OutputChoice { config: 0, sample_rate: 88200 })
    );
    assert_eq!(choose_output_config(&[], None), None);
}

#[test]
fn equal_ranks_keep_the_first_config() {
    let configs = [range(4, 8000, 96000, false), range(4, 8000, 96000, false)];
    assert_eq!(choose_output_config(&configs, Some(vec![44100])).unwrap().config, 0);
}

#[test]
fn buffer_size_doubles_the_least() {
    assert_eq!(output_buffer_size(None), 2048);
    assert_eq!(output_buffer_size(Some(256)), 2048);
    assert_eq!(output_buffer_size(Some(4096)), 8192);
}

#[test]
fn player_control_follows_sample_rate_requests() {
    let mut c = PlayerControl::new();
    assert_eq!(c.current_sr, DEFAULT_SR);
    assert_eq!(c.request_sr(48000), DeviceAction::Keep);
    assert_eq!(c.request_sr(44100), DeviceAction::QueryRates(44100));
    assert_eq!(
        c.rates_known(44100, &[44100, 48000]),
        DeviceAction::OpenMixer { sr: 44100, change_device: false }
    );
    assert_eq!(c.current_sr, 44100);
    assert_eq!(c.rates_known(96000, &[44100]), DeviceAction::Keep);
    assert_eq!(c.rates_known(0, &[44100]), DeviceAction::OpenMixer { sr: DEFAULT_SR, change_device: false });
    assert_eq!(c.device_changed(&[22050, 96000]), DeviceAction::OpenMixer { sr: 96000, change_device: true });
    assert_eq!(c.initialize(), DeviceAction::OpenMixer { sr: DEFAULT_SR, change_device: true });
    assert_eq!(c.current_sr, DEFAULT_SR);
}

#[test]
fn player_control_keeps_the_current_track() {
    let mut c = PlayerControl::new();
    assert_eq!(c.track_to_play(None), 0);
    assert_eq!(c.track_to_play(Some(3)), 3);
    c.track_started(3);
    assert_eq!(c.track_to_play(None), 3);
}

#[test]
fn seeks_and_ticks_decide_as_the_loop_does() {
    assert_eq!(seek_action(false, true, true), SeekAction::Ignore);
    assert_eq!(seek_action(true, true, true), SeekAction::Replay);
    assert_eq!(seek_action(true, false, true), SeekAction::MoveSound);
    assert_eq!(seek_action(true, true, false), SeekAction::MoveSound);
    assert_eq!(tick_report(true, false, true), TickReport { is_playing: true, position: PositionSource::Sound });
    assert_eq!(tick_report(true, true, true), TickReport { is_playing: false, position: PositionSource::End });
    assert_eq!(
        tick_report(true, true, false),
        TickReport { is_playing: true, position: PositionSource::Extrapolated }
    );
    assert_eq!(tick_report(false, true, false), TickReport { is_playing: false, position: PositionSource::Previous });
}

#[test]
fn a_request_of_no_rate_reopens_at_the_default_without_asking() {
    let mut c = PlayerControl::new();
    c.rates_known(44100, &[44100]);
    assert_eq!(c.current_sr, 44100);
    assert_eq!(c.request_sr(0), DeviceAction::OpenMixer { sr: DEFAULT_SR, change_device: false });
    assert_eq!(c.current_sr, DEFAULT_SR);
    assert_eq!(c.request_sr(0), DeviceAction::OpenMixer { sr: DEFAULT_SR, change_device: false });
}
