//! The names of tile files and level directories: `<x>,<z>.<ext>` and the
//! number of the level.
use vstd::prelude::*;
use vstd::string::{StrSliceExecFns, StringExecFns, StringSliceAdditionalSpecFns};
use vstd::utf8::encode_utf8;
use crate::tiler::error::TileError;
use crate::tiler::sector::TileCoordinate;

verus! {

/// The byte of the dot before the extension.
pub const DOT: u8 = 46;

/// The byte of the comma between the two coordinates.
pub const COMMA: u8 = 44;

/// The byte of the minus sign.
pub const MINUS: u8 = 45;

/// The byte of the digit `0`.
pub const ZERO: u8 = 48;

/// The byte of the digit `9`.
pub const NINE: u8 = 57;

/// Whether `b` is one of the ASCII digits `0` to `9`.
pub open spec fn is_digit(b: u8) -> bool {
    ZERO <= b <= NINE
}

/// Whether `s` holds ASCII digits only.
pub open spec fn all_digits(s: Seq<u8>) -> bool {
    forall|i: int| 0 <= i < s.len() ==> is_digit(#[trigger] s[i])
}

/// The number that a run of ASCII digits writes in base ten, the first digit
/// weighing most.
pub open spec fn digits_value(s: Seq<u8>) -> nat
    decreases s.len(),
{
    if s.len() == 0 {
        0
    } else {
        (digits_value(s.drop_last()) * 10 + (s.last() - ZERO)) as nat
    }
}

/// The integer of 32 bits that `s` writes in base ten: an optional `-`, then
/// one digit or more and nothing else. No `+` is taken.
pub open spec fn written_int(s: Seq<u8>) -> Option<int> {
    let negative = s.len() > 0 && s[0] == MINUS;
    let digits = if negative { s.skip(1) } else { s };
    let value = if negative { -(digits_value(digits) as int) } else { digits_value(digits) as int };
    if digits.len() > 0 && all_digits(digits) && i32::MIN <= value <= i32::MAX {
        Some(value)
    } else {
        None
    }
}

/// The sector that a tile name of the form `<x>,<z>.<ext>` names: two
/// integers in base ten with a comma between them, then the last dot of the
/// name and an extension that is not empty. `None` for any other name.
pub open spec fn named_sector(name: Seq<u8>) -> Option<TileCoordinate> {
    match name.index_of_last(DOT) {
        Some(dot) if dot + 1 < name.len() => {
            let stem = name.subrange(0, dot);
            match stem.index_of_first(COMMA) {
                Some(comma) => {
                    match (
                        written_int(stem.subrange(0, comma)),
                        written_int(stem.subrange(comma + 1, stem.len() as int)),
                    ) {
                        (Some(x), Some(z)) => Some(TileCoordinate { x: x as i32, z: z as i32 }),
                        _ => None,
                    }
                },
                None => None,
            }
        },
        _ => None,
    }
}

/// A run of digits is worth at least as much as any run that it starts with.
pub proof fn lemma_digits_value_grows(s: Seq<u8>, k: int)
    requires
        0 <= k <= s.len(),
        all_digits(s),
    ensures
        digits_value(s.take(k)) <= digits_value(s),
    decreases s.len(),
{
    if k < s.len() {
        let front = s.drop_last();
        assert(front.take(k) =~= s.take(k));
        assert(is_digit(s[s.len() - 1]));
        assert forall|i: int| 0 <= i < front.len() implies is_digit(#[trigger] front[i]) by {
            assert(front[i] == s[i]);
        }
        lemma_digits_value_grows(front, k);
    } else {
        assert(s.take(k) =~= s);
    }
}

/// The value of the digits of `bytes` from `from` up to `to`, where these are
/// digits all and their value is at most `limit`.
fn read_digits(bytes: &[u8], from: usize, to: usize, limit: u64) -> (r: Option<u64>)
    requires
        from <= to <= bytes@.len(),
        limit <= 0xffff_ffff,
    ensures
        r matches Some(v) ==> all_digits(bytes@.subrange(from as int, to as int)) && v
            == digits_value(bytes@.subrange(from as int, to as int)) && v <= limit,
        r is None ==> !all_digits(bytes@.subrange(from as int, to as int)) || digits_value(
            bytes@.subrange(from as int, to as int),
        ) > limit,
{
    let ghost run = bytes@.subrange(from as int, to as int);
    let mut value: u64 = 0;
    let mut i: usize = from;
    assert(run.take(0) =~= Seq::<u8>::empty());
    while i < to
        invariant
            from <= i <= to <= bytes@.len(),
            limit <= 0xffff_ffff,
            run == bytes@.subrange(from as int, to as int),
            all_digits(run.take(i - from)),
            value == digits_value(run.take(i - from)),
            value <= limit,
        decreases to - i,
    {
        let b = bytes[i];
        assert(run[i - from] == b);
        if b < ZERO || b > NINE {
            return None;
        }
        proof {
            let next = run.take(i - from + 1);
            assert(next.drop_last() =~= run.take(i - from));
            assert(next.last() == b);
            assert forall|j: int| 0 <= j < next.len() implies is_digit(#[trigger] next[j]) by {
                if j < next.len() - 1 {
                    assert(next[j] == run.take(i - from)[j]);
                }
            }
        }
        value = value * 10 + (b - ZERO) as u64;
        if value > limit {
            proof {
                if all_digits(run) {
                    lemma_digits_value_grows(run, i - from + 1);
                }
            }
            return None;
        }
        i += 1;
    }
    assert(run.take(i - from) =~= run);
    Some(value)
}

/// The integer that the bytes of `bytes` from `from` up to `to` write.
fn read_int(bytes: &[u8], from: usize, to: usize) -> (r: Option<i32>)
    requires
        from <= to <= bytes@.len(),
    ensures
        r matches Some(v) ==> written_int(bytes@.subrange(from as int, to as int)) == Some(v as int),
        r is None ==> written_int(bytes@.subrange(from as int, to as int)) is None,
{
    let ghost run = bytes@.subrange(from as int, to as int);
    if from == to {
        return None;
    }
    assert(run[0] == bytes@[from as int]);
    if bytes[from] == MINUS {
        assert(run.skip(1) =~= bytes@.subrange(from + 1, to as int));
        if from + 1 == to {
            return None;
        }
        match read_digits(bytes, from + 1, to, 0x8000_0000) {
            Some(v) => Some((-(v as i64)) as i32),
            None => None,
        }
    } else {
        match read_digits(bytes, from, to, 0x7fff_ffff) {
            Some(v) => Some(v as i32),
            None => None,
        }
    }
}

/// The sector that the tile name `name` names, or `None` where the name is
/// not of the form `<x>,<z>.<ext>`.
pub fn parse_tile_name_bytes(name: &[u8]) -> (r: Option<TileCoordinate>)
    ensures
        r == named_sector(name@),
{
    let n = name.len();
    let mut dot: usize = n;
    while dot > 0 && name[dot - 1] != DOT
        invariant
            dot <= n,
            n == name@.len(),
            forall|j: int| dot <= j < n ==> name@[j] != DOT,
        decreases dot,
    {
        dot -= 1;
    }
    proof {
        name@.index_of_last_ensures(DOT);
    }
    if dot == 0 {
        return None;
    }
    let dot = dot - 1;
    assert(name@[dot as int] == DOT);
    assert(name@.index_of_last(DOT) == Some(dot as int));
    if dot + 1 >= n {
        return None;
    }
    let ghost stem = name@.subrange(0, dot as int);
    let mut comma: usize = 0;
    while comma < dot && name[comma] != COMMA
        invariant
            comma <= dot < n,
            n == name@.len(),
            forall|j: int| 0 <= j < comma ==> name@[j] != COMMA,
        decreases dot - comma,
    {
        comma += 1;
    }
    proof {
        stem.index_of_first_ensures(COMMA);
        assert forall|j: int| 0 <= j < comma implies stem[j] != COMMA by {
            assert(stem[j] == name@[j]);
        }
    }
    if comma == dot {
        return None;
    }
    proof {
        assert(stem[comma as int] == COMMA);
        assert(stem.index_of_first(COMMA) == Some(comma as int));
        assert(stem.subrange(0, comma as int) =~= name@.subrange(0, comma as int));
        assert(stem.subrange(comma + 1, stem.len() as int) =~= name@.subrange(
            comma + 1,
            dot as int,
        ));
    }
    let x = read_int(name, 0, comma);
    let z = read_int(name, comma + 1, dot);
    match (x, z) {
        (Some(x), Some(z)) => Some(TileCoordinate { x, z }),
        _ => None,
    }
}

/// The sector that the tile name `name` names, or `None` where the name is
/// not of the form `<x>,<z>.<ext>`.
pub fn parse_tile_name(name: &str) -> (r: Option<TileCoordinate>)
    ensures
        r == named_sector(encode_utf8(name@)),
{
    parse_tile_name_bytes(name.as_bytes())
}

/// The sectors that the tile names of one level name, in the order of the
/// names, or `Format` with the place of the first name that is not of the
/// form `<x>,<z>.<ext>`.
pub fn parse_tile_names(names: &Vec<String>) -> (r: Result<Vec<TileCoordinate>, TileError>)
    ensures
        match r {
            Ok(coords) => {
                &&& coords.len() == names.len()
                &&& forall|i: int|
                    0 <= i < names.len() ==> named_sector(encode_utf8((#[trigger] names[i])@))
                        == Some(coords[i])
            },
            Err(e) => exists|index: usize|
                {
                    &&& e == (TileError::Format { index })
                    &&& index < names.len()
                    &&& named_sector(encode_utf8(names[index as int]@)) is None
                    &&& forall|i: int|
                        0 <= i < index ==> named_sector(
                            encode_utf8((#[trigger] names[i])@),
                        ) is Some
                },
        },
{
    let mut coords: Vec<TileCoordinate> = Vec::new();
    let mut i: usize = 0;
    while i < names.len()
        invariant
            i <= names.len(),
            coords.len() == i,
            forall|j: int|
                0 <= j < i ==> named_sector(encode_utf8((#[trigger] names[j])@)) == Some(
                    coords[j],
                ),
        decreases names.len() - i,
    {
        match parse_tile_name(names[i].as_str()) {
            Some(c) => {
                coords.push(c);
            },
            None => {
                return Err(TileError::Format { index: i });
            },
        }
        i += 1;
    }
    Ok(coords)
}

/// The ASCII digit for `d`.
pub open spec fn digit_char(d: int) -> char {
    (ZERO + d) as char
}

/// The digits of `n` in base ten, without leading zeros.
pub open spec fn decimal(n: nat) -> Seq<char>
    decreases n,
{
    if n < 10 {
        seq![digit_char(n as int)]
    } else {
        decimal(n / 10).push(digit_char((n % 10) as int))
    }
}

/// The integer `v` in base ten, with a `-` before it where it is negative.
pub open spec fn int_text(v: int) -> Seq<char> {
    if v < 0 {
        seq!['-'] + decimal((-v) as nat)
    } else {
        decimal(v as nat)
    }
}

/// The file name of the tile at sector `c`: `<x>,<z>.png`.
pub open spec fn tile_name(c: TileCoordinate) -> Seq<char> {
    int_text(c.x as int) + seq![','] + int_text(c.z as int) + seq!['.', 'p', 'n', 'g']
}

/// The pattern that finds every file below a directory: the path, a slash
/// where the path is a directory and has none at its end, then `**/*` and the
/// wanted ending of the file names.
pub open spec fn search_text(path: Seq<char>, is_dir: bool, filetype: Seq<char>) -> Seq<char> {
    let slash = if is_dir && !(path.len() > 0 && path.last() == '/') {
        seq!['/']
    } else {
        Seq::<char>::empty()
    };
    path + slash + seq!['*', '*', '/', '*'] + filetype
}

/// The text of one decimal digit.
fn digit_text(d: u8) -> (s: &'static str)
    requires
        d < 10,
    ensures
        s@ == seq![digit_char(d as int)],
{
    proof {
        reveal_strlit("0");
        reveal_strlit("1");
        reveal_strlit("2");
        reveal_strlit("3");
        reveal_strlit("4");
        reveal_strlit("5");
        reveal_strlit("6");
        reveal_strlit("7");
        reveal_strlit("8");
        reveal_strlit("9");
    }
    let s = if d == 0 {
        "0"
    } else if d == 1 {
        "1"
    } else if d == 2 {
        "2"
    } else if d == 3 {
        "3"
    } else if d == 4 {
        "4"
    } else if d == 5 {
        "5"
    } else if d == 6 {
        "6"
    } else if d == 7 {
        "7"
    } else if d == 8 {
        "8"
    } else {
        "9"
    };
    assert(s@ =~= seq![digit_char(d as int)]);
    s
}

/// Appends the digits of `n` in base ten to `out`.
fn push_decimal(out: &mut String, n: u64)
    ensures
        final(out)@ == old(out)@ + decimal(n as nat),
    decreases n,
{
    if n >= 10 {
        push_decimal(out, n / 10);
    }
    out.append(digit_text((n % 10) as u8));
    assert(out@ =~= old(out)@ + decimal(n as nat));
}

/// Appends the integer `v` in base ten to `out`.
fn push_int(out: &mut String, v: i32)
    ensures
        final(out)@ == old(out)@ + int_text(v as int),
{
    if v < 0 {
        proof {
            reveal_strlit("-");
        }
        out.append("-");
        push_decimal(out, (-(v as i64)) as u64);
    } else {
        push_decimal(out, v as u64);
    }
    assert(out@ =~= old(out)@ + int_text(v as int));
}

/// The file name under which the tile at sector `c` is kept: `<x>,<z>.png`.
pub fn tile_file_name(c: TileCoordinate) -> (name: String)
    ensures
        name@ == tile_name(c),
{
    let mut name = String::new();
    push_int(&mut name, c.x);
    proof {
        reveal_strlit(",");
        reveal_strlit(".png");
    }
    name.append(",");
    push_int(&mut name, c.z);
    name.append(".png");
    assert(name@ =~= tile_name(c));
    name
}

/// The name of the directory that holds level `level` of a pyramid: the
/// number of the level in base ten.
pub fn level_name(level: u32) -> (name: String)
    ensures
        name@ == decimal(level as nat),
{
    let mut name = String::new();
    push_decimal(&mut name, level as u64);
    assert(name@ =~= decimal(level as nat));
    name
}

/// The pattern that finds every file below `path` whose name ends in
/// `filetype`; `is_dir` says whether `path` is a directory.
pub fn search_pattern(path: &str, is_dir: bool, filetype: &str) -> (pattern: String)
    ensures
        pattern@ == search_text(path@, is_dir, filetype@),
{
    let mut pattern = String::from_str(path);
    let len = path.unicode_len();
    let ends_in_slash = len > 0 && path.get_char(len - 1) == '/';
    proof {
        reveal_strlit("/");
        reveal_strlit("**/*");
    }
    if is_dir && !ends_in_slash {
        pattern.append("/");
    }
    pattern.append("**/*");
    pattern.append(filetype);
    assert(pattern@ =~= search_text(path@, is_dir, filetype@));
    pattern
}

/// The bytes of a text whose characters are all ASCII.
pub open spec fn ascii_bytes(text: Seq<char>) -> Seq<u8> {
    Seq::new(text.len(), |i: int| text[i] as u8)
}

/// The digits of `n` are digits, one at least, and write `n`.
pub proof fn lemma_decimal_writes(n: nat)
    ensures
        decimal(n).len() > 0,
        all_digits(ascii_bytes(decimal(n))),
        digits_value(ascii_bytes(decimal(n))) == n,
        vstd::utf8::is_ascii_chars(decimal(n)),
    decreases n,
{
    let bytes = ascii_bytes(decimal(n));
    if n < 10 {
        assert(bytes =~= seq![(ZERO + n) as u8]);
        assert(bytes.drop_last() =~= Seq::<u8>::empty());
        assert(digits_value(bytes.drop_last()) == 0);
    } else {
        lemma_decimal_writes(n / 10);
        let front = ascii_bytes(decimal(n / 10));
        assert(bytes =~= front.push((ZERO + n % 10) as u8));
        assert(bytes.drop_last() =~= front);
        assert forall|i: int| 0 <= i < bytes.len() implies is_digit(#[trigger] bytes[i]) by {
            if i < front.len() {
                assert(bytes[i] == front[i]);
            }
        }
    }
}

/// The text of an integer of 32 bits is read back as that integer, and holds
/// neither a comma nor a dot.
pub proof fn lemma_int_text_reads_back(v: int)
    requires
        i32::MIN <= v <= i32::MAX,
    ensures
        written_int(ascii_bytes(int_text(v))) == Some(v),
        vstd::utf8::is_ascii_chars(int_text(v)),
        forall|i: int|
            0 <= i < int_text(v).len() ==> (#[trigger] ascii_bytes(int_text(v))[i]) != COMMA
                && ascii_bytes(int_text(v))[i] != DOT,
{
    let bytes = ascii_bytes(int_text(v));
    if v < 0 {
        let n = (-v) as nat;
        lemma_decimal_writes(n);
        let digits = ascii_bytes(decimal(n));
        assert(bytes =~= seq![MINUS] + digits);
        assert(bytes.skip(1) =~= digits);
        assert forall|i: int| 0 <= i < bytes.len() implies (#[trigger] bytes[i]) != COMMA && bytes[i]
            != DOT by {
            if i > 0 {
                assert(bytes[i] == digits[i - 1]);
                assert(is_digit(digits[i - 1]));
            }
        }
    } else {
        lemma_decimal_writes(v as nat);
        assert(is_digit(bytes[0]));
        assert forall|i: int| 0 <= i < bytes.len() implies (#[trigger] bytes[i]) != COMMA && bytes[i]
            != DOT by {
            assert(is_digit(bytes[i]));
        }
    }
}

/// The name under which a tile is kept names the sector of the tile: what
/// `tile_file_name` writes, `parse_tile_name` reads back.
pub proof fn lemma_tile_name_reads_back(c: TileCoordinate)
    ensures
        named_sector(encode_utf8(tile_name(c))) == Some(c),
{
    let x = ascii_bytes(int_text(c.x as int));
    let z = ascii_bytes(int_text(c.z as int));
    let name = tile_name(c);
    lemma_int_text_reads_back(c.x as int);
    lemma_int_text_reads_back(c.z as int);
    assert(vstd::utf8::is_ascii_chars(name));
    vstd::utf8::is_ascii_chars_encode_utf8(name);
    let bytes = encode_utf8(name);
    assert(bytes =~= ascii_bytes(name));
    let ending = seq![DOT, 112u8, 110u8, 103u8];
    assert(bytes =~= x + seq![COMMA] + z + ending);
    let dot = (x.len() + 1 + z.len()) as int;
    assert(bytes[dot] == DOT);
    assert(bytes.contains(DOT));
    bytes.index_of_last_ensures(DOT);
    let found = bytes.index_of_last(DOT)->0;
    assert(found == dot) by {
        if found < dot {
            assert(bytes[dot] != DOT);
        } else if found > dot {
            assert(bytes[found] == ending[found - dot]);
        }
    }
    let stem = bytes.subrange(0, dot);
    assert(stem =~= x + seq![COMMA] + z);
    let comma = x.len() as int;
    assert(stem[comma] == COMMA);
    assert(stem.contains(COMMA));
    stem.index_of_first_ensures(COMMA);
    let first = stem.index_of_first(COMMA)->0;
    assert(first == comma) by {
        if first < comma {
            assert(stem[first] == x[first]);
        } else if first > comma {
            assert(stem[comma] != COMMA);
        }
    }
    assert(stem.subrange(0, comma) =~= x);
    assert(stem.subrange(comma + 1, stem.len() as int) =~= z);
}

} // verus!
