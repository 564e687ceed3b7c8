use thesia::output_device::{choose_device, choose_host};

fn names(xs: &[&str]) -> Vec<String> {
    xs.iter().map(|s| s.to_string()).collect()
}

#[test]
fn the_last_jack_host_is_taken() {
    assert_eq!(choose_host(&names(&["ALSA", "JACK Audio Connection Kit"])), Some(1));
    assert_eq!(choose_host(&names(&["Jack", "ALSA", "jackd"])), Some(2));
    assert_eq!(choose_host(&names(&["ALSA", "CoreAudio"])), None);
    assert_eq!(choose_host(&[]), None);
}

#[test]
fn the_last_pipewire_pulse_or_jack_device_is_taken() {
    let devices = vec![
        Some("default".to_string()),
        Some("PipeWire Sound Server".to_string()),
        None,
        Some("PulseAudio".to_string()),
        Some("hw:CARD=PCH".to_string()),
    ];
    assert_eq!(choose_device(&devices), Some(3));
    assert_eq!(choose_device(&[Some("hdmi".to_string()), None]), None);
    assert_eq!(choose_device(&[Some("pulse".to_string()), Some("jac".to_string())]), Some(0));
    assert_eq!(choose_device(&[Some("x jACk y".to_string())]), Some(0));
}

#[test]
fn names_are_matched_as_lowercased() {
    let cases = [
        "JAC\u{212A}",
        "p\u{130}pewire",
        "\u{130}jack",
        "PULSE",
        "Pu\u{130}lse",
        "\u{212A}JACK",
        "ja\u{107}k",
        "Ωpipewire",
    ];
    for name in cases {
        let lower = name.to_lowercase();
        let want_host = lower.contains("jack");
        let want_device = lower.contains("pipewire") || lower.contains("pulse") || lower.contains("jack");
        assert_eq!(choose_host(&[name.to_string()]).is_some(), want_host, "{}", name);
        assert_eq!(choose_device(&[Some(name.to_string())]).is_some(), want_device, "{}", name);
    }
    assert_eq!(choose_host(&names(&["JAC\u{212A}"])), Some(0));
}
