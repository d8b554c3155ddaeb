use vstd::prelude::*;
use vstd::string::{StringExecFns, StringSliceAdditionalSpecFns};
use vstd::utf8::{decode_utf8, encode_utf8, valid_utf8};

verus! {

/// A string of at most 16 bytes, packed into one number: the first byte is
/// the lowest.
pub type String16 = u128;

/// The number that holds `bytes`, the first byte lowest.
pub open spec fn packed(bytes: Seq<u8>) -> nat
    decreases bytes.len(),
{
    if bytes.len() == 0 {
        0
    } else {
        bytes[0] as nat + 256 * packed(bytes.drop_first())
    }
}

/// The bytes of `value` from the lowest on, as far as the first zero byte,
/// and 16 at most.
pub open spec fn unpacked(value: nat, room: nat) -> Seq<u8>
    decreases room,
{
    if room == 0 || value % 256 == 0 {
        Seq::empty()
    } else {
        seq![(value % 256) as u8] + unpacked(value / 256, (room - 1) as nat)
    }
}

/// 256 to the power of `exponent`.
pub open spec fn radix_power(exponent: nat) -> nat
    decreases exponent,
{
    if exponent == 0 {
        1
    } else {
        256 * radix_power((exponent - 1) as nat)
    }
}

proof fn lemma_packed_bound(bytes: Seq<u8>)
    ensures
        packed(bytes) < radix_power(bytes.len()),
    decreases bytes.len(),
{
    if bytes.len() > 0 {
        lemma_packed_bound(bytes.drop_first());
    }
}

proof fn lemma_radix_power_grows(fewer: nat, more: nat)
    requires
        fewer <= more,
    ensures
        radix_power(fewer) <= radix_power(more),
    decreases more,
{
    if fewer < more {
        lemma_radix_power_grows(fewer, (more - 1) as nat);
    }
}

/// Packs the bytes of `value` into one number, the first byte lowest.
pub fn string16(value: &str) -> (r: String16)
    requires
        value.spec_bytes().len() <= 16,
    ensures
        r == packed(value.spec_bytes()),
{
    let bytes = value.as_bytes();
    let ghost all = bytes@;
    let mut result: u128 = 0;
    let mut i: usize = bytes.len();
    proof {
        assert(all.subrange(i as int, all.len() as int) =~= Seq::<u8>::empty());
    }
    while i > 0
        invariant
            i <= bytes.len(),
            bytes@ == all,
            all.len() <= 16,
            result == packed(all.subrange(i as int, all.len() as int)),
        decreases i,
    {
        let ghost rest = all.subrange(i as int, all.len() as int);
        proof {
            lemma_packed_bound(rest);
            lemma_radix_power_grows(rest.len(), 15);
            reveal_with_fuel(radix_power, 16);
            assert(radix_power(15) == 0x1_00_0000_0000_0000_0000_0000_0000_0000);
        }
        i -= 1;
        proof {
            let now = all.subrange(i as int, all.len() as int);
            assert(now.drop_first() =~= rest);
            assert(now[0] == all[i as int]);
        }
        result = result * 256 + bytes[i] as u128;
    }
    proof {
        assert(all.subrange(0, all.len() as int) =~= all);
    }
    result
}

/// A name for what `String::from_utf8_lossy` gives for `bytes`.
pub uninterp spec fn lossy_text(bytes: Seq<u8>) -> Seq<char>;

/// Calls `String::from_utf8_lossy`, which turns bytes into text and puts a
/// replacement character in place of what is no UTF-8. Bytes that are UTF-8
/// give the text that they encode.
#[verifier::external_body]
fn lossy_string(bytes: &Vec<u8>) -> (r: String)
    ensures
        r@ == lossy_text(bytes@),
        valid_utf8(bytes@) ==> r@ == decode_utf8(bytes@),
{
    String::from_utf8_lossy(bytes).into_owned()
}

/// The bytes of `str16` from the lowest on, as far as the first zero byte.
pub fn bytes_of(str16: String16) -> (bytes: Vec<u8>)
    ensures
        bytes@ == unpacked(str16 as nat, 16),
{
    let mut bytes: Vec<u8> = Vec::new();
    let mut rest: u128 = str16;
    let mut i: usize = 0;
    proof {
        assert(bytes@ + unpacked(rest as nat, 16) =~= unpacked(str16 as nat, 16));
    }
    while i < 16 && rest % 256 != 0
        invariant
            i <= 16,
            bytes@ + unpacked(rest as nat, (16 - i) as nat) == unpacked(str16 as nat, 16),
        decreases 16 - i,
    {
        let ghost before = bytes@;
        let ghost tail = unpacked((rest / 256) as nat, (16 - i - 1) as nat);
        bytes.push((rest % 256) as u8);
        proof {
            assert(bytes@ + tail =~= before + (seq![(rest % 256) as u8] + tail));
        }
        rest = rest / 256;
        i += 1;
    }
    proof {
        assert(unpacked(rest as nat, (16 - i) as nat) =~= Seq::<u8>::empty());
        assert(bytes@ + Seq::<u8>::empty() =~= bytes@);
    }
    bytes
}

/// The string that `str16` holds: its bytes as far as the first zero byte,
/// as text.
pub fn to_string(str16: String16) -> (r: String)
    ensures
        r@ == lossy_text(unpacked(str16 as nat, 16)),
        valid_utf8(unpacked(str16 as nat, 16)) ==> r@ == decode_utf8(unpacked(str16 as nat, 16)),
{
    let bytes = bytes_of(str16);
    lossy_string(&bytes)
}

proof fn lemma_unpacked_packed(bytes: Seq<u8>, room: nat)
    requires
        bytes.len() <= room,
        forall|i: int| 0 <= i < bytes.len() ==> bytes[i] != 0,
    ensures
        unpacked(packed(bytes), room) == bytes,
    decreases bytes.len(),
{
    if bytes.len() == 0 {
    } else {
        let rest = bytes.drop_first();
        let value = packed(bytes);
        assert(value == bytes[0] as nat + 256 * packed(rest));
        assert(value % 256 == bytes[0] as nat) by {
            vstd::arithmetic::div_mod::lemma_fundamental_div_mod_converse(
                value as int,
                256,
                packed(rest) as int,
                bytes[0] as int,
            );
        }
        assert(value / 256 == packed(rest)) by {
            vstd::arithmetic::div_mod::lemma_fundamental_div_mod_converse(
                value as int,
                256,
                packed(rest) as int,
                bytes[0] as int,
            );
        }
        assert forall|i: int| 0 <= i < rest.len() implies rest[i] != 0 by {
            assert(rest[i] == bytes[i + 1]);
        }
        lemma_unpacked_packed(rest, (room - 1) as nat);
        assert(seq![bytes[0]] + rest =~= bytes);
    }
}

/// A string of at most 16 bytes without a zero byte comes back from its
/// packed form as it went in: the bytes that are unpacked are its bytes,
/// which are UTF-8 and encode the string, so that `to_string` gives the
/// string.
pub proof fn packing_round_trips(text: Seq<char>)
    requires
        encode_utf8(text).len() <= 16,
        forall|i: int| 0 <= i < encode_utf8(text).len() ==> encode_utf8(text)[i] != 0,
    ensures
        unpacked(packed(encode_utf8(text)), 16) == encode_utf8(text),
        valid_utf8(unpacked(packed(encode_utf8(text)), 16)),
        decode_utf8(unpacked(packed(encode_utf8(text)), 16)) == text,
{
    let bytes = encode_utf8(text);
    lemma_unpacked_packed(bytes, 16);
    vstd::utf8::encode_utf8_valid_utf8(text);
    vstd::utf8::encode_utf8_decode_utf8(text);
}

/// The character of the decimal digit `digit`.
pub open spec fn digit_char(digit: nat) -> char {
    if digit == 0 {
        '0'
    } else if digit == 1 {
        '1'
    } else if digit == 2 {
        '2'
    } else if digit == 3 {
        '3'
    } else if digit == 4 {
        '4'
    } else if digit == 5 {
        '5'
    } else if digit == 6 {
        '6'
    } else if digit == 7 {
        '7'
    } else if digit == 8 {
        '8'
    } else {
        '9'
    }
}

/// The decimal form of `number`, without leading zeros.
pub open spec fn decimal(number: nat) -> Seq<char>
    decreases number,
{
    if number < 10 {
        seq![digit_char(number)]
    } else {
        decimal(number / 10).push(digit_char(number % 10))
    }
}

fn digit_text(digit: usize) -> (r: &'static str)
    requires
        digit < 10,
    ensures
        r@ == seq![digit_char(digit as nat)],
{
    proof {
        reveal_strlit("0");
        reveal_strlit("1");
        reveal_strlit("2");
        reveal_strlit("3");
        reveal_strlit("4");
        reveal_strlit("5");
        reveal_strlit("6");
        reveal_strlit("7");
        reveal_strlit("8");
        reveal_strlit("9");
    }
    let r = if digit == 0 {
        "0"
    } else if digit == 1 {
        "1"
    } else if digit == 2 {
        "2"
    } else if digit == 3 {
        "3"
    } else if digit == 4 {
        "4"
    } else if digit == 5 {
        "5"
    } else if digit == 6 {
        "6"
    } else if digit == 7 {
        "7"
    } else if digit == 8 {
        "8"
    } else {
        "9"
    };
    proof {
        assert(r@ =~= seq![digit_char(digit as nat)]);
    }
    r
}

/// The decimal form of `number`.
pub fn decimal_string(number: usize) -> (r: String)
    ensures
        r@ == decimal(number as nat),
    decreases number,
{
    if number < 10 {
        String::from_str(digit_text(number))
    } else {
        let mut r = decimal_string(number / 10);
        r.append(digit_text(number % 10));
        proof {
            assert(decimal(number as nat) =~= decimal((number / 10) as nat) + seq![
                digit_char((number % 10) as nat),
            ]);
        }
        r
    }
}

/// The decimal form of `number`, after a minus sign where it is negative.
pub open spec fn signed_decimal(number: int) -> Seq<char> {
    if number < 0 {
        seq!['-'] + decimal((-number) as nat)
    } else {
        decimal(number as nat)
    }
}

/// The decimal form of `number`.
pub fn signed_decimal_string(number: isize) -> (r: String)
    ensures
        r@ == signed_decimal(number as int),
{
    if number < 0 {
        let magnitude: i128 = -(number as i128);
        let mut r = String::from_str("-");
        r.append(decimal_string(magnitude as usize).as_str());
        proof {
            reveal_strlit("-");
            assert("-"@ =~= seq!['-']);
        }
        r
    } else {
        decimal_string(number as usize)
    }
}

/// Why a number is no value of a bounded setting: the unit of the setting,
/// the number, and the bound that it breaks.
pub enum BoundedIntegerParseError {
    TooLow(String16, usize, usize),
    TooHigh(String16, usize, usize),
}

/// The message of an error: "cannot have", the unit, "of", the number, and
/// after a colon the bound with what it is.
pub open spec fn message_of(unit: Seq<char>, value: nat, bound: nat, end: Seq<char>) -> Seq<char> {
    "cannot have "@ + unit + " of "@ + decimal(value) + ": "@ + decimal(bound) + end
}

impl BoundedIntegerParseError {
    /// The message of the error.
    pub fn message(&self) -> (r: String)
        ensures
            self matches BoundedIntegerParseError::TooLow(name, value, bound) ==> r@
                == message_of(
                lossy_text(unpacked(name as nat, 16)),
                value as nat,
                bound as nat,
                " is the minimum allowed"@,
            ),
            self matches BoundedIntegerParseError::TooHigh(name, value, bound) ==> r@
                == message_of(
                lossy_text(unpacked(name as nat, 16)),
                value as nat,
                bound as nat,
                " is the maximum allowed"@,
            ),
    {
        let (name, value, bound, end) = match self {
            BoundedIntegerParseError::TooLow(name, value, bound) => (
                *name,
                *value,
                *bound,
                " is the minimum allowed",
            ),
            BoundedIntegerParseError::TooHigh(name, value, bound) => (
                *name,
                *value,
                *bound,
                " is the maximum allowed",
            ),
        };
        let mut r = String::from_str("cannot have ");
        r.append(to_string(name).as_str());
        r.append(" of ");
        r.append(decimal_string(value).as_str());
        r.append(": ");
        r.append(decimal_string(bound).as_str());
        r.append(end);
        r
    }
}

/// A number between `LOWER_BOUND` and `UPPER_BOUND`, in the unit `UNITS`,
/// which is `DEFAULT` where nothing else is said.
pub struct BoundedConfigUsize<
    const LOWER_BOUND: usize,
    const UPPER_BOUND: usize,
    const DEFAULT: usize,
    const UNITS: u128,
> {
    inner: usize,
}

impl<
    const LOWER_BOUND: usize,
    const UPPER_BOUND: usize,
    const DEFAULT: usize,
    const UNITS: u128,
> View for BoundedConfigUsize<LOWER_BOUND, UPPER_BOUND, DEFAULT, UNITS> {
    type V = nat;

    closed spec fn view(&self) -> nat {
        self.inner as nat
    }
}

impl<
    const LOWER_BOUND: usize,
    const UPPER_BOUND: usize,
    const DEFAULT: usize,
    const UNITS: u128,
> Clone for BoundedConfigUsize<LOWER_BOUND, UPPER_BOUND, DEFAULT, UNITS> {
    fn clone(&self) -> (r: Self)
        ensures
            r == *self,
    {
        BoundedConfigUsize { inner: self.inner }
    }
}

impl<
    const LOWER_BOUND: usize,
    const UPPER_BOUND: usize,
    const DEFAULT: usize,
    const UNITS: u128,
> Copy for BoundedConfigUsize<LOWER_BOUND, UPPER_BOUND, DEFAULT, UNITS> {

}

impl<
    const LOWER_BOUND: usize,
    const UPPER_BOUND: usize,
    const DEFAULT: usize,
    const UNITS: u128,
> Default for BoundedConfigUsize<LOWER_BOUND, UPPER_BOUND, DEFAULT, UNITS> {
    fn default() -> (r: Self)
        ensures
            r@ == DEFAULT,
    {
        BoundedConfigUsize { inner: DEFAULT }
    }
}

impl<
    const LOWER_BOUND: usize,
    const UPPER_BOUND: usize,
    const DEFAULT: usize,
    const UNITS: u128,
> BoundedConfigUsize<LOWER_BOUND, UPPER_BOUND, DEFAULT, UNITS> {
    /// The setting of the value `value`, where that lies inside the bounds;
    /// else which bound it breaks.
    pub fn try_from(value: usize) -> (r: Result<Self, BoundedIntegerParseError>)
        ensures
            value < LOWER_BOUND ==> r == Err::<Self, BoundedIntegerParseError>(
                BoundedIntegerParseError::TooLow(UNITS, value, LOWER_BOUND),
            ),
            LOWER_BOUND <= value && value > UPPER_BOUND ==> r == Err::<
                Self,
                BoundedIntegerParseError,
            >(BoundedIntegerParseError::TooHigh(UNITS, value, UPPER_BOUND)),
            LOWER_BOUND <= value <= UPPER_BOUND ==> r is Ok && r->Ok_0@ == value,
    {
        if value < LOWER_BOUND {
            Err(BoundedIntegerParseError::TooLow(UNITS, value, LOWER_BOUND))
        } else if value > UPPER_BOUND {
            Err(BoundedIntegerParseError::TooHigh(UNITS, value, UPPER_BOUND))
        } else {
            Ok(BoundedConfigUsize { inner: value })
        }
    }

    /// The value of the setting.
    pub fn get(&self) -> (value: usize)
        ensures
            value == self@,
    {
        self.inner
    }
}

/// How the signature of a function is laid out.
pub enum FunctionSignatureStyle {
    Wide,
    Block,
    Tall,
}

impl Default for FunctionSignatureStyle {
    fn default() -> (r: Self)
        ensures
            r is Tall,
    {
        FunctionSignatureStyle::Tall
    }
}

/// Whether the output is coloured: where the output is a terminal, always,
/// or never. Only the stream that writes the output looks at it.
pub enum ColourMode {
    Auto,
    Always,
    Never,
}

impl Default for ColourMode {
    fn default() -> (r: Self)
        ensures
            r is Auto,
    {
        ColourMode::Auto
    }
}

impl ColourMode {
    /// Whether output to a terminal, or to something else, is coloured.
    pub fn colours(&self, terminal: bool) -> (r: bool)
        ensures
            r == match *self {
                ColourMode::Auto => terminal,
                ColourMode::Always => true,
                ColourMode::Never => false,
            },
    {
        match self {
            ColourMode::Auto => terminal,
            ColourMode::Always => true,
            ColourMode::Never => false,
        }
    }
}

/// The largest value of a setting.
pub const UPPER_LIMIT: usize = usize::MAX;

/// The unit "character count", packed.
pub const CHARACTER_COUNT: u128 = 0x746e756f6320726574636172616863;

/// The settings of the formatter.
pub struct Config {
    /// The line length that the formatter should aim for.
    pub max_width: BoundedConfigUsize<1, UPPER_LIMIT, 100, CHARACTER_COUNT>,
    /// The number of spaces of one level of indent.
    pub indent: BoundedConfigUsize<1, UPPER_LIMIT, 4, CHARACTER_COUNT>,
    /// Whether the output is coloured.
    pub colour_mode: ColourMode,
}

impl Default for Config {
    fn default() -> (r: Self)
        ensures
            r.max_width@ == 100,
            r.indent@ == 4,
            r.colour_mode is Auto,
    {
        Config {
            max_width: Default::default(),
            indent: Default::default(),
            colour_mode: Default::default(),
        }
    }
}

} // verus!
