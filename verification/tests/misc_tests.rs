use rust_examples::counters::{App, Counter};
use rust_examples::modbus::{socket_address_text, uptime_from_registers, ModbusTcpParams};
use rust_examples::temperature::{menu_choice, Conversion};

#[test]
fn menu_accepts_one_and_two_only() {
    assert_eq!(menu_choice("1"), Some(Conversion::CelsiusToFahrenheit));
    assert_eq!(menu_choice("2"), Some(Conversion::FahrenheitToCelsius));
    assert_eq!(menu_choice("3"), None);
    assert_eq!(menu_choice(""), None);
    assert_eq!(menu_choice("12"), None);
}

#[test]
fn counter_buttons() {
    let mut c = Counter::new();
    assert_eq!(c.label(), "Count: 0");
    c.increment();
    c.increment();
    assert_eq!(c.label(), "Count: 2");
    c.decrement();
    c.decrement();
    c.decrement();
    assert_eq!(c.count, -1);
    assert_eq!(c.label(), "Count: -1");
    c.reset();
    assert_eq!(c.count, 0);
}

#[test]
fn increment_then_decrement_restores_the_count() {
    let mut c = Counter { count: 41 };
    c.increment();
    c.decrement();
    assert_eq!(c.count, 41);
}

#[test]
fn plus_button_updates_the_label() {
    let mut app = App::new();
    assert_eq!(app.on_plus_clicked(), "1");
    assert_eq!(app.on_plus_clicked(), "2");
    assert_eq!(app.counter, 2);
}

#[test]
fn socket_address_trims_the_host() {
    let p = ModbusTcpParams { device_address: 1, tcp_host: "  192.168.0.7 ".to_string(), tcp_port: 502 };
    assert_eq!(socket_address_text(&p), "192.168.0.7:502");
    let q = ModbusTcpParams { device_address: 3, tcp_host: "plc".to_string(), tcp_port: 0 };
    assert_eq!(socket_address_text(&q), "plc:0");
}

#[test]
fn registers_combine_low_word_first() {
    assert_eq!(uptime_from_registers(&[5, 0]).unwrap(), "5");
    assert_eq!(uptime_from_registers(&[0, 1]).unwrap(), "65536");
    assert_eq!(uptime_from_registers(&[0x1234, 0x0001, 99]).unwrap(), "70196");
    assert_eq!(uptime_from_registers(&[0xFFFF, 0xFFFF]).unwrap(), "-1");
    assert_eq!(uptime_from_registers(&[0, 0x8000]).unwrap(), "-2147483648");
    assert_eq!(uptime_from_registers(&[0xFFFF, 0x7FFF]).unwrap(), "2147483647");
}

#[test]
fn too_few_registers_is_an_error() {
    assert_eq!(uptime_from_registers(&[]).unwrap_err(), "Недостаточно данных (ожидалось 2 регистра)");
    assert_eq!(uptime_from_registers(&[7]).unwrap_err(), "Недостаточно данных (ожидалось 2 регистра)");
}

#[test]
fn register_value_matches_shift_and_or() {
    for (low, high) in [(0u16, 0u16), (1, 2), (0xABCD, 0x8001), (0xFFFF, 0x7FFF)] {
        let expected = (((high as u32) << 16) | low as u32) as i32;
        assert_eq!(uptime_from_registers(&[low, high]).unwrap(), expected.to_string());
    }
}
