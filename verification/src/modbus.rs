use vstd::prelude::*;
use vstd::string::*;
use crate::text;

verus! {

broadcast use vstd::string::group_string_axioms;

/// The fields of the connection form: Modbus TCP unit id, host and port.
pub struct ModbusTcpParams {
    pub device_address: u8,
    pub tcp_host: String,
    pub tcp_port: u16,
}

/// The address to resolve: the trimmed host, `:`, and the port.
pub open spec fn socket_address(host: Seq<char>, port: u16) -> Seq<char> {
    text::trimmed(host) + ":"@ + text::decimal(port as nat)
}

/// The `host:port` text to resolve for the connection (see `socket_address`).
pub fn socket_address_text(params: &ModbusTcpParams) -> (r: String)
    ensures
        r@ == socket_address(params.tcp_host@, params.tcp_port),
{
    let mut s = text::trim(params.tcp_host.as_str());
    s.append(":");
    text::push_decimal(&mut s, params.tcp_port as u32);
    s
}

/// The signed 32-bit number held by two input registers, low word first:
/// `high << 16 | low` read as an `i32`.
pub open spec fn register_value(low: u16, high: u16) -> int {
    let combined = high as int * 65536 + low as int;
    if combined >= 0x8000_0000 {
        combined - 0x1_0000_0000
    } else {
        combined
    }
}

/// The message when fewer than two registers came back.
pub open spec fn too_few_registers() -> Seq<char> {
    "Недостаточно данных (ожидалось 2 регистра)"@
}

/// The uptime text read from the input registers at address 0: an error
/// when fewer than two came back, else the decimal value of the first two
/// as a signed 32-bit number (see `register_value`).
pub fn uptime_from_registers(words: &[u16]) -> (r: Result<String, String>)
    ensures
        words@.len() < 2 <==> r is Err,
        r matches Err(m) ==> m@ == too_few_registers(),
        r matches Ok(s) ==> s@ == text::signed_decimal(register_value(words@[0], words@[1])),
{
    if words.len() < 2 {
        return Err("Недостаточно данных (ожидалось 2 регистра)".to_owned());
    }
    let low = words[0] as u64;
    let high = words[1] as u64;
    let combined: u64 = high * 65536 + low;
    if combined >= 0x8000_0000 {
        let magnitude = (0x1_0000_0000u64 - combined) as u32;
        let mut s = String::new();
        text::push_char(&mut s, '-');
        text::push_decimal(&mut s, magnitude);
        Ok(s)
    } else {
        Ok(text::u32_to_decimal(combined as u32))
    }
}

} // verus!
