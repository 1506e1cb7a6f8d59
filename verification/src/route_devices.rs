use vstd::prelude::*;
use crate::network::text_eq;

verus! {

/// What a request to `/device/{action}` asks for.
#[derive(Debug, Clone, Copy, PartialEq, Eq, Structural)]
pub enum DeviceAction {
    Block,
    Unblock,
    Unknown,
}

/// Reads the action of a `/device/{action}` request: `block`, `unblock`, or
/// anything else.
pub fn device_action(action: &str) -> (a: DeviceAction)
    ensures
        a == DeviceAction::Block <==> action@ == "block"@,
        a == DeviceAction::Unblock <==> action@ == "unblock"@,
{
    proof {
        reveal_strlit("block");
        reveal_strlit("unblock");
        assert("block"@.len() != "unblock"@.len());
    }
    if text_eq(action, "block") {
        DeviceAction::Block
    } else if text_eq(action, "unblock") {
        DeviceAction::Unblock
    } else {
        DeviceAction::Unknown
    }
}

/// The value the `is_blocked` column takes after an action: 1 after `block`,
/// 0 after `unblock`, unchanged otherwise.
pub fn blocked_value(a: DeviceAction) -> (v: Option<i32>)
    ensures
        v == match a {
            DeviceAction::Block => Some(1i32),
            DeviceAction::Unblock => Some(0i32),
            DeviceAction::Unknown => None::<i32>,
        },
{
    match a {
        DeviceAction::Block => Some(1),
        DeviceAction::Unblock => Some(0),
        DeviceAction::Unknown => None,
    }
}

/// Where a device request sends the browser back to: the user's profile page.
pub fn user_location(name: &str) -> (loc: String)
    ensures
        loc@ == "/users/"@ + name@,
{
    let mut loc = String::from_str("/users/");
    loc.append(name);
    loc
}

/// Whether `c` is a decimal digit.
pub open spec fn is_decimal_digit(c: char) -> bool {
    '0' <= c <= '9'
}

/// The value of a run of decimal digits.
pub open spec fn digits_value(digits: Seq<char>) -> int
    decreases digits.len(),
{
    if digits.len() == 0 {
        0
    } else {
        digits_value(digits.drop_last()) * 10 + (digits.last() as int - '0' as int)
    }
}

/// Whether a text starts with a `+` or `-` sign.
pub open spec fn has_sign(text: Seq<char>) -> bool {
    text.len() > 0 && (text[0] == '+' || text[0] == '-')
}

/// The text after its sign, if any.
pub open spec fn unsigned_part(text: Seq<char>) -> Seq<char> {
    if has_sign(text) { text.drop_first() } else { text }
}

/// What `i32::from_str` makes of a text, as its documentation states it: an
/// optional `+` or `-` followed by at least one decimal digit and nothing else,
/// whose value fits in `i32`.
pub open spec fn decimal_i32(text: Seq<char>) -> Option<i32> {
    let magnitude = digits_value(unsigned_part(text));
    let value = if has_sign(text) && text[0] == '-' { -magnitude } else { magnitude };
    if unsigned_part(text).len() > 0 && (forall|i: int|
        0 <= i < unsigned_part(text).len() ==> #[trigger] is_decimal_digit(unsigned_part(text)[i]))
        && i32::MIN <= value <= i32::MAX {
        Some(value as i32)
    } else {
        None
    }
}

/// Calls `str::parse::<i32>`. Claimed: the result is `decimal_i32` of the text.
#[verifier::external_body]
fn parse_i32(text: &str) -> (r: Option<i32>)
    ensures
        r == decimal_i32(text@),
{
    text.parse::<i32>().ok()
}

/// Reads the device id of a removal form.
pub fn parse_device_id(text: &str) -> (id: Option<i32>)
    ensures
        id == decimal_i32(text@),
{
    parse_i32(text)
}

} // verus!
