use banana::telemetry::hardware_energy_delta;
use banana::LinuxRaplReader;

#[test]
fn energy_counter_text_is_read_as_u64() {
    assert_eq!(LinuxRaplReader::parse_energy_counter("12345\n"), Some(12345));
    assert_eq!(LinuxRaplReader::parse_energy_counter("  0  "), Some(0));
    assert_eq!(LinuxRaplReader::parse_energy_counter("+7"), Some(7));
    assert_eq!(LinuxRaplReader::parse_energy_counter("\u{3000}42\u{a0}\t"), Some(42));
    assert_eq!(
        LinuxRaplReader::parse_energy_counter("18446744073709551615"),
        Some(u64::MAX)
    );
}

#[test]
fn malformed_energy_counter_text_gives_none() {
    for text in ["", "   ", "+", "-1", "12a", "1 2", "18446744073709551616", "0x10", "++1"] {
        assert_eq!(LinuxRaplReader::parse_energy_counter(text), None, "{:?}", text);
        assert_eq!(LinuxRaplReader::parse_energy_counter(text), text.trim().parse::<u64>().ok());
    }
}

#[test]
fn energy_delta_needs_both_readings_in_order() {
    assert_eq!(hardware_energy_delta(Some(100), Some(250)), Some(150));
    assert_eq!(hardware_energy_delta(Some(5), Some(5)), Some(0));
    assert_eq!(hardware_energy_delta(Some(250), Some(100)), None);
    assert_eq!(hardware_energy_delta(None, Some(1)), None);
    assert_eq!(hardware_energy_delta(Some(1), None), None);
    assert_eq!(hardware_energy_delta(None, None), None);
}
