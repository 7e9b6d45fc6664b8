use vstd::prelude::*;
use vstd::string::*;

verus! {

broadcast use vstd::string::group_string_axioms;

/// The two conversions the menu offers.
#[derive(Debug, Clone, Copy, PartialEq, Eq, Structural)]
pub enum Conversion {
    /// (1) °C -> °F
    CelsiusToFahrenheit,
    /// (2) °F -> °C
    FahrenheitToCelsius,
}

/// The menu text shown before each choice.
pub fn menu_prompt() -> (r: String)
    ensures
        r@ == "Выберите, что хотите конвертировать:\n(1) °C -> °F\n(2) °F -> °C"@,
{
    "Выберите, что хотите конвертировать:\n(1) °C -> °F\n(2) °F -> °C".to_owned()
}

/// The conversion chosen by the (trimmed) answer `answer`: `1` or `2`;
/// `None` for any other answer, which is asked again.
pub fn menu_choice(answer: &str) -> (r: Option<Conversion>)
    ensures
        r == (if answer@ == "1"@ {
            Some(Conversion::CelsiusToFahrenheit)
        } else if answer@ == "2"@ {
            Some(Conversion::FahrenheitToCelsius)
        } else {
            None
        }),
{
    let a = answer.to_owned();
    if a == "1".to_owned() {
        Some(Conversion::CelsiusToFahrenheit)
    } else if a == "2".to_owned() {
        Some(Conversion::FahrenheitToCelsius)
    } else {
        None
    }
}

} // verus!
