//! Choosing a terminal image protocol from the environment, and the escape sequences
//! that draw and clear the pet with it.

use vstd::prelude::*;
use vstd::utf8::encode_utf8;
use crate::bytes::{decimal, digits_value, is_digit, push_all, push_decimal};
use crate::codec::{base64_encode, base64_standard, lemma_base64_len};

verus! {

/// The UTF-8 bytes of a string.
pub open spec fn text(s: &str) -> Seq<u8> {
    encode_utf8(s@)
}

/// A byte with ASCII upper-case letters made lower-case.
pub open spec fn ascii_lower(b: u8) -> u8 {
    if 65 <= b <= 90 {
        (b + 32) as u8
    } else {
        b
    }
}

/// A byte string with ASCII upper-case letters made lower-case.
pub open spec fn lower_bytes(s: Seq<u8>) -> Seq<u8> {
    s.map_values(|b: u8| ascii_lower(b))
}

/// `needle` occurs in `hay` starting at position `i`.
pub open spec fn occurs_at(hay: Seq<u8>, needle: Seq<u8>, i: int) -> bool {
    0 <= i && i + needle.len() <= hay.len() && hay.subrange(i, i + needle.len()) == needle
}

/// `needle` occurs somewhere in `hay`.
pub open spec fn contains_bytes(hay: Seq<u8>, needle: Seq<u8>) -> bool {
    exists|i: int| #[trigger] occurs_at(hay, needle, i)
}

/// Some needle occurs in `value`, ignoring the case of ASCII letters in `value`.
pub open spec fn contains_any_of(value: Seq<char>, needles: Seq<Seq<char>>) -> bool {
    exists|k: int|
        0 <= k < needles.len() && contains_bytes(
            lower_bytes(encode_utf8(value)),
            encode_utf8(#[trigger] needles[k]),
        )
}

/// Whether `needle` occurs in `hay`.
fn find_bytes(hay: &[u8], needle: &[u8]) -> (found: bool)
    ensures
        found == contains_bytes(hay@, needle@),
{
    if needle.len() > hay.len() {
        assert forall|i: int| !occurs_at(hay@, needle@, i) by {}
        return false;
    }
    if needle.len() == 0 {
        assert(hay@.subrange(0, 0) =~= needle@);
        assert(occurs_at(hay@, needle@, 0));
        return true;
    }
    let hay_len = hay.len();
    let last: usize = hay.len() - needle.len();
    let mut i: usize = 0;
    while i <= last
        invariant
            last == hay@.len() - needle@.len(),
            needle@.len() <= hay@.len(),
            needle@.len() > 0,
            hay_len == hay@.len(),
            forall|k: int| 0 <= k < i ==> !#[trigger] occurs_at(hay@, needle@, k),
        decreases last + 1 - i,
    {
        let mut j: usize = 0;
        let mut same = true;
        while j < needle.len()
            invariant
                j <= needle@.len(),
                i <= last,
                last == hay@.len() - needle@.len(),
                hay_len == hay@.len(),
                same <==> forall|m: int| 0 <= m < j ==> hay@[i + m] == needle@[m],
            decreases needle@.len() - j,
        {
            if hay[i + j] != needle[j] {
                same = false;
            }
            j = j + 1;
        }
        if same {
            assert(hay@.subrange(i as int, i + needle@.len()) =~= needle@);
            assert(occurs_at(hay@, needle@, i as int));
            return true;
        }
        assert(!occurs_at(hay@, needle@, i as int)) by {
            if occurs_at(hay@, needle@, i as int) {
                let m = choose|m: int| 0 <= m < needle@.len() && hay@[i + m] != needle@[m];
                assert(hay@.subrange(i as int, i + needle@.len())[m] == hay@[i + m]);
            }
        }
        i = i + 1;
    }
    assert forall|k: int| !#[trigger] occurs_at(hay@, needle@, k) by {
        if 0 <= k < i {
        }
    }
    false
}

/// The bytes of a string with ASCII upper-case letters made lower-case.
fn ascii_lowercase(value: &str) -> (lowered: Vec<u8>)
    ensures
        lowered@ == lower_bytes(encode_utf8(value@)),
{
    let bytes = value.as_bytes();
    let mut lowered: Vec<u8> = Vec::new();
    let mut i: usize = 0;
    while i < bytes.len()
        invariant
            i <= bytes@.len(),
            bytes@ == encode_utf8(value@),
            lowered@ == lower_bytes(bytes@).take(i as int),
        decreases bytes@.len() - i,
    {
        let b = bytes[i];
        let c: u8 = if 65 <= b && b <= 90 { b + 32 } else { b };
        lowered.push(c);
        i = i + 1;
        assert(lowered@ =~= lower_bytes(bytes@).take(i as int));
    }
    assert(lowered@ =~= lower_bytes(bytes@));
    lowered
}

/// Whether any of `needles` occurs in `value`, ignoring the case of ASCII letters in
/// `value`.
pub fn contains_any(value: &str, needles: &[&str]) -> (found: bool)
    ensures
        found == contains_any_of(value@, needles@.map_values(|n: &str| n@)),
{
    let lowered = ascii_lowercase(value);
    let ghost views = needles@.map_values(|n: &str| n@);
    let mut k: usize = 0;
    while k < needles.len()
        invariant
            k <= needles@.len(),
            views == needles@.map_values(|n: &str| n@),
            lowered@ == lower_bytes(encode_utf8(value@)),
            forall|m: int| 0 <= m < k ==> !contains_bytes(lowered@, encode_utf8(#[trigger] views[m])),
        decreases needles@.len() - k,
    {
        let needle = needles[k];
        assert(views[k as int] == needle@);
        if find_bytes(lowered.as_slice(), needle.as_bytes()) {
            return true;
        }
        k = k + 1;
    }
    false
}

/// A string without the `+` that may lead an unsigned number.
pub open spec fn unsigned_digits(s: Seq<u8>) -> Seq<u8> {
    if s.len() > 1 && s[0] == 43 {
        s.drop_first()
    } else {
        s
    }
}

/// Every byte of the string is a decimal digit.
pub open spec fn all_digits(s: Seq<u8>) -> bool {
    forall|i: int| 0 <= i < s.len() ==> is_digit(#[trigger] s[i])
}

/// The `u64` that a string spells as Rust parses it: decimal digits, at least one,
/// after an optional `+`, and no larger than `u64::MAX`.
pub open spec fn parsed_u64(s: Seq<u8>) -> Option<u64> {
    let digits = unsigned_digits(s);
    if digits.len() > 0 && all_digits(digits) && digits_value(digits) <= u64::MAX {
        Some(digits_value(digits) as u64)
    } else {
        None
    }
}

/// The pieces of a byte string between its dots, as `str::split('.')` gives them.
pub open spec fn split_dots(s: Seq<u8>) -> Seq<Seq<u8>>
    decreases s.len(),
{
    if s.len() == 0 {
        seq![Seq::<u8>::empty()]
    } else {
        let pieces = split_dots(s.drop_last());
        if s.last() == 46 {
            pieces.push(Seq::empty())
        } else {
            pieces.update(pieces.len() - 1, pieces.last().push(s.last()))
        }
    }
}

/// The version `major[.minor[.patch]]` that a string spells: a missing minor or
/// patch number is 0, and so is a patch number that does not parse; `None` when the
/// major or a given minor number does not parse or there are more than three parts.
pub open spec fn version_triple(s: Seq<u8>) -> Option<(u64, u64, u64)> {
    let pieces = split_dots(s);
    if pieces.len() == 1 {
        match parsed_u64(pieces[0]) {
            Some(major) => Some((major, 0u64, 0u64)),
            None => None,
        }
    } else if pieces.len() == 2 || pieces.len() == 3 {
        match (parsed_u64(pieces[0]), parsed_u64(pieces[1])) {
            (Some(major), Some(minor)) => Some(
                (
                    major,
                    minor,
                    if pieces.len() == 3 {
                        match parsed_u64(pieces[2]) {
                            Some(patch) => patch,
                            None => 0u64,
                        }
                    } else {
                        0u64
                    },
                ),
            ),
            _ => None,
        }
    } else {
        None
    }
}

/// Version `a` is at least version `b`, comparing major, then minor, then patch.
pub open spec fn triple_at_least(a: (u64, u64, u64), b: (u64, u64, u64)) -> bool {
    a.0 > b.0 || (a.0 == b.0 && (a.1 > b.1 || (a.1 == b.1 && a.2 >= b.2)))
}

/// Adding a digit does not make the number smaller.
pub proof fn lemma_digits_grow(s: Seq<u8>, i: int)
    requires
        0 <= i <= s.len(),
        forall|k: int| 0 <= k < s.len() ==> is_digit(#[trigger] s[k]),
    ensures
        digits_value(s.take(i)) <= digits_value(s),
    decreases s.len() - i,
{
    if i < s.len() {
        lemma_digits_grow(s, i + 1);
        assert(s.take(i + 1).drop_last() =~= s.take(i));
    } else {
        assert(s.take(i) =~= s);
    }
}

/// The `u64` that a byte string spells, as Rust's `str::parse::<u64>` reads it.
pub fn parse_u64(s: &[u8]) -> (value: Option<u64>)
    ensures
        value == parsed_u64(s@),
{
    let start: usize = if s.len() > 1 && s[0] == 43 { 1 } else { 0 };
    let ghost digits = unsigned_digits(s@);
    assert(digits =~= s@.skip(start as int));
    if start == s.len() {
        return None;
    }
    let mut i: usize = start;
    while i < s.len()
        invariant
            start <= i <= s@.len(),
            digits == unsigned_digits(s@),
            digits == s@.skip(start as int),
            forall|k: int| start <= k < i ==> is_digit(#[trigger] s@[k]),
        decreases s@.len() - i,
    {
        if !(48 <= s[i] && s[i] <= 57) {
            assert(digits[i - start] == s@[i as int]);
            assert(!is_digit(digits[i - start]));
            return None;
        }
        i = i + 1;
    }
    assert forall|k: int| 0 <= k < digits.len() implies is_digit(#[trigger] digits[k]) by {
        assert(digits[k] == s@[k + start]);
    }
    let mut value: u64 = 0;
    let mut j: usize = start;
    while j < s.len()
        invariant
            start <= j <= s@.len(),
            digits == unsigned_digits(s@),
            digits == s@.skip(start as int),
            forall|k: int| 0 <= k < digits.len() ==> is_digit(#[trigger] digits[k]),
            value == digits_value(digits.take(j - start)),
        decreases s@.len() - j,
    {
        assert(digits.take(j - start + 1).drop_last() =~= digits.take(j - start));
        assert(digits[j - start] == s@[j as int]);
        assert(is_digit(digits[j - start]));
        let d: u64 = (s[j] - 48) as u64;
        if value > (u64::MAX - d) / 10 {
            assert(value * 10 + d > u64::MAX) by (nonlinear_arith)
                requires value > (u64::MAX - d) / 10, d <= 9;
            proof {
                lemma_digits_grow(digits, j - start + 1);
            }
            return None;
        }
        value = value * 10 + d;
        j = j + 1;
    }
    assert(digits.take(j - start) =~= digits);
    Some(value)
}

/// Splits a byte string at its dots, as `str::split('.')` does.
fn split_at_dots(s: &[u8]) -> (pieces: Vec<Vec<u8>>)
    ensures
        pieces@.len() == split_dots(s@).len(),
        forall|k: int| 0 <= k < pieces@.len() ==> #[trigger] pieces@[k]@ == split_dots(s@)[k],
{
    let mut pieces: Vec<Vec<u8>> = Vec::new();
    pieces.push(Vec::new());
    let mut i: usize = 0;
    assert(s@.take(0) =~= Seq::<u8>::empty());
    while i < s.len()
        invariant
            i <= s@.len(),
            pieces@.len() == split_dots(s@.take(i as int)).len(),
            pieces@.len() >= 1,
            forall|k: int| 0 <= k < pieces@.len() ==> #[trigger] pieces@[k]@ == split_dots(s@.take(i as int))[k],
        decreases s@.len() - i,
    {
        let ghost before = s@.take(i as int);
        assert(s@.take(i + 1).drop_last() =~= before);
        proof {
            lemma_split_nonempty(before);
        }
        if s[i] == 46 {
            pieces.push(Vec::new());
        } else {
            let mut piece = pieces.pop().unwrap();
            piece.push(s[i]);
            pieces.push(piece);
        }
        i = i + 1;
        assert forall|k: int| 0 <= k < pieces@.len() implies #[trigger] pieces@[k]@ == split_dots(s@.take(i as int))[k] by {}
    }
    assert(s@.take(i as int) =~= s@);
    pieces
}

/// A byte string splits into at least one piece.
pub proof fn lemma_split_nonempty(s: Seq<u8>)
    ensures
        split_dots(s).len() >= 1,
    decreases s.len(),
{
    if s.len() > 0 {
        lemma_split_nonempty(s.drop_last());
    }
}

/// Whether a version string is at least `minimum`; `false` when there is none or it
/// does not parse.
pub fn version_at_least(version: Option<&str>, minimum: (u64, u64, u64)) -> (ok: bool)
    ensures
        ok == match version {
            Some(v) => match version_triple(encode_utf8(v@)) {
                Some(t) => triple_at_least(t, minimum),
                None => false,
            },
            None => false,
        },
{
    let v = match version {
        Some(v) => v,
        None => {
            return false;
        },
    };
    let pieces = split_at_dots(v.as_bytes());
    let parsed: (u64, u64, u64) = if pieces.len() == 1 {
        match parse_u64(pieces[0].as_slice()) {
            Some(major) => (major, 0, 0),
            None => {
                return false;
            },
        }
    } else if pieces.len() == 2 || pieces.len() == 3 {
        let major = parse_u64(pieces[0].as_slice());
        let minor = parse_u64(pieces[1].as_slice());
        match (major, minor) {
            (Some(major), Some(minor)) => {
                let patch: u64 = if pieces.len() == 3 {
                    match parse_u64(pieces[2].as_slice()) {
                        Some(patch) => patch,
                        None => 0,
                    }
                } else {
                    0
                };
                (major, minor, patch)
            },
            _ => {
                return false;
            },
        }
    } else {
        return false;
    };
    parsed.0 > minimum.0 || (parsed.0 == minimum.0 && (parsed.1 > minimum.1 || (parsed.1
        == minimum.1 && parsed.2 >= minimum.2)))
}

/// A terminal image protocol.
#[derive(Clone, Copy, Debug, PartialEq, Eq)]
pub enum ImageProtocol {
    /// Kitty graphics with the PNG data sent inline.
    Kitty,
    /// Kitty graphics with the PNG read from a file, for iTerm2.
    KittyFile,
    /// Sixel graphics.
    Sixel,
}

/// The protocol a user asks for.
#[derive(Clone, Copy, Debug, PartialEq, Eq)]
pub enum ProtocolSelection {
    /// Detect the protocol from the environment.
    Auto,
    Kitty,
    Sixel,
}

/// Why no protocol was chosen.
#[derive(Clone, Copy, Debug, PartialEq, Eq)]
pub enum DetectError {
    /// Running inside tmux, where images are not reliably pane-local.
    InTmux,
    /// Running inside Zellij, where images are not reliably pane-local.
    InZellij,
    /// Running in an iTerm2 older than 3.6.
    ITermTooOld,
    /// No supported terminal was recognized.
    NoProtocol,
}

/// What the environment says about the terminal: which of the variables that matter
/// are set, and the values of those that are read.
#[derive(Debug)]
pub struct TerminalEnv {
    pub tmux: bool,
    pub tmux_pane: bool,
    pub zellij: bool,
    pub zellij_session_name: bool,
    pub zellij_version: bool,
    pub kitty_window_id: bool,
    pub wezterm_executable: bool,
    pub wezterm_version: bool,
    pub wt_session: bool,
    /// `TERM_PROGRAM`, or empty when it is not set or not Unicode.
    pub term_program: String,
    /// `TERM`, or empty when it is not set or not Unicode.
    pub term: String,
    /// `TERM_PROGRAM_VERSION`, when it is set and Unicode.
    pub term_program_version: Option<String>,
}

/// The names of terminals that speak the Kitty graphics protocol.
pub open spec fn kitty_terminals() -> Seq<Seq<char>> {
    seq!["kitty"@, "ghostty"@, "wezterm"@]
}

/// The names of terminals that speak Sixel.
pub open spec fn sixel_terminals() -> Seq<Seq<char>> {
    seq!["sixel"@, "mlterm"@, "foot"@]
}

/// The protocol the environment calls for, or why there is none.
pub open spec fn detected_protocol(env: TerminalEnv) -> Result<ImageProtocol, DetectError> {
    if env.tmux || env.tmux_pane {
        Err(DetectError::InTmux)
    } else if env.zellij || env.zellij_session_name || env.zellij_version {
        Err(DetectError::InZellij)
    } else if env.kitty_window_id || env.wezterm_executable || env.wezterm_version {
        Ok(ImageProtocol::Kitty)
    } else if contains_any_of(env.term_program@, seq!["iterm"@]) {
        let recent = match env.term_program_version {
            Some(v) => match version_triple(encode_utf8(v@)) {
                Some(t) => triple_at_least(t, (3u64, 6u64, 0u64)),
                None => false,
            },
            None => false,
        };
        if recent {
            Ok(ImageProtocol::KittyFile)
        } else {
            Err(DetectError::ITermTooOld)
        }
    } else if contains_any_of(env.term_program@, kitty_terminals()) || contains_any_of(
        env.term@,
        kitty_terminals(),
    ) {
        Ok(ImageProtocol::Kitty)
    } else if env.wt_session || contains_any_of(env.term@, sixel_terminals()) {
        Ok(ImageProtocol::Sixel)
    } else {
        Err(DetectError::NoProtocol)
    }
}

/// The protocol the environment calls for: none in tmux or Zellij; Kitty graphics in
/// Kitty and WezTerm; file-based Kitty graphics in iTerm2 3.6 or newer; Kitty graphics
/// where the terminal's name says Kitty, Ghostty or WezTerm; Sixel in Windows Terminal
/// and where the terminal's name says Sixel, mlterm or foot.
pub fn detect_protocol(env: &TerminalEnv) -> (result: Result<ImageProtocol, DetectError>)
    ensures
        result == detected_protocol(*env),
{
    if env.tmux || env.tmux_pane {
        return Err(DetectError::InTmux);
    }
    if env.zellij || env.zellij_session_name || env.zellij_version {
        return Err(DetectError::InZellij);
    }
    if env.kitty_window_id || env.wezterm_executable || env.wezterm_version {
        return Ok(ImageProtocol::Kitty);
    }
    let iterm: [&str; 1] = ["iterm"];
    assert(iterm@.map_values(|n: &str| n@) =~= seq!["iterm"@]);
    if contains_any(env.term_program.as_str(), &iterm) {
        let version = match &env.term_program_version {
            Some(v) => Some(v.as_str()),
            None => None,
        };
        if version_at_least(version, (3, 6, 0)) {
            return Ok(ImageProtocol::KittyFile);
        }
        return Err(DetectError::ITermTooOld);
    }
    let kitty: [&str; 3] = ["kitty", "ghostty", "wezterm"];
    assert(kitty@.map_values(|n: &str| n@) =~= kitty_terminals());
    if contains_any(env.term_program.as_str(), &kitty) || contains_any(env.term.as_str(), &kitty) {
        return Ok(ImageProtocol::Kitty);
    }
    let sixel: [&str; 3] = ["sixel", "mlterm", "foot"];
    assert(sixel@.map_values(|n: &str| n@) =~= sixel_terminals());
    if env.wt_session || contains_any(env.term.as_str(), &sixel) {
        return Ok(ImageProtocol::Sixel);
    }
    Err(DetectError::NoProtocol)
}

/// The protocol to use: the one asked for, or the one the environment calls for.
pub fn resolve_protocol(selection: ProtocolSelection, env: &TerminalEnv) -> (result: Result<ImageProtocol, DetectError>)
    ensures
        result == match selection {
            ProtocolSelection::Kitty => Ok(ImageProtocol::Kitty),
            ProtocolSelection::Sixel => Ok(ImageProtocol::Sixel),
            ProtocolSelection::Auto => detected_protocol(*env),
        },
{
    match selection {
        ProtocolSelection::Kitty => Ok(ImageProtocol::Kitty),
        ProtocolSelection::Sixel => Ok(ImageProtocol::Sixel),
        ProtocolSelection::Auto => detect_protocol(env),
    }
}

/// The image id under which the pet is drawn with Kitty graphics.
pub const PET_IMAGE_ID: u32 = 0xC0DE;

/// The most base64 bytes sent in one Kitty graphics command.
pub const KITTY_CHUNK_SIZE: usize = 4096;

/// A command with every escape byte doubled, as tmux passthrough requires.
pub open spec fn tmux_escaped(command: Seq<u8>) -> Seq<u8>
    decreases command.len(),
{
    if command.len() == 0 {
        Seq::empty()
    } else {
        tmux_escaped(command.drop_last()) + if command.last() == 27 {
            seq![27u8, 27u8]
        } else {
            seq![command.last()]
        }
    }
}

/// A command as it must be sent: inside tmux, wrapped in a passthrough sequence
/// `ESC P tmux; ... ESC \` with its escape bytes doubled; elsewhere unchanged.
pub open spec fn tmux_wrapped(command: Seq<u8>, in_tmux: bool) -> Seq<u8> {
    if in_tmux {
        seq![27u8] + text("Ptmux;") + tmux_escaped(command) + seq![27u8, 92u8]
    } else {
        command
    }
}

/// The Kitty graphics command that deletes the pet's image.
pub open spec fn kitty_delete_command() -> Seq<u8> {
    seq![27u8] + text("_Ga=d,d=I,i=") + decimal(PET_IMAGE_ID as nat) + text(",q=2;") + seq![
        27u8,
        92u8,
    ]
}

/// The part of a base64 payload that chunk `k` carries.
pub open spec fn payload_chunk(payload: Seq<u8>, k: nat) -> Seq<u8> {
    let start = k * KITTY_CHUNK_SIZE;
    let end = if start + KITTY_CHUNK_SIZE < payload.len() {
        start + KITTY_CHUNK_SIZE
    } else {
        payload.len() as int
    };
    payload.subrange(start, end)
}

/// Whether more chunks follow chunk `k`: 1 when they do, 0 for the last.
pub open spec fn more_chunks(payload: Seq<u8>, k: nat) -> nat {
    if (k + 1) * KITTY_CHUNK_SIZE < payload.len() {
        1
    } else {
        0
    }
}

/// The Kitty graphics command that sends chunk `k` of a PNG's base64 payload; the first
/// one also says how to place the image: `columns` by `rows` cells, under the pet's id.
pub open spec fn kitty_chunk_command(payload: Seq<u8>, k: nat, columns: u16, rows: u16) -> Seq<u8> {
    if k == 0 {
        seq![27u8] + text("_Ga=T,t=d,f=100,c=") + decimal(columns as nat) + text(",r=") + decimal(
            rows as nat,
        ) + text(",q=2,i=") + decimal(PET_IMAGE_ID as nat) + text(",m=") + decimal(
            more_chunks(payload, k),
        ) + text(";") + payload_chunk(payload, k) + seq![27u8, 92u8]
    } else {
        seq![27u8] + text("_Gm=") + decimal(more_chunks(payload, k)) + text(";") + payload_chunk(
            payload,
            k,
        ) + seq![27u8, 92u8]
    }
}

/// The commands for the first `n` chunks of a payload.
pub open spec fn kitty_chunk_commands(payload: Seq<u8>, columns: u16, rows: u16, n: nat) -> Seq<u8>
    decreases n,
{
    if n == 0 {
        Seq::empty()
    } else {
        kitty_chunk_commands(payload, columns, rows, (n - 1) as nat) + kitty_chunk_command(
            payload,
            (n - 1) as nat,
            columns,
            rows,
        )
    }
}

/// The number of chunks of a payload of `len` bytes.
pub open spec fn chunk_count(len: nat) -> nat {
    ((len + KITTY_CHUNK_SIZE - 1) / KITTY_CHUNK_SIZE as int) as nat
}

/// Chunk `k` of a chunked Kitty transfer carries the `k`-th 4096 bytes of the payload
/// (fewer for the last chunk), and its more-flag is `1` exactly when another chunk
/// follows it and `0` for the last: the first chunk also places the image, the others
/// only continue the transfer.
pub proof fn lemma_chunk_more_flag(payload: Seq<u8>, k: nat, columns: u16, rows: u16)
    requires
        k < chunk_count(payload.len()),
    ensures
        kitty_chunk_command(payload, k, columns, rows) == (if k == 0 {
            seq![27u8] + text("_Ga=T,t=d,f=100,c=") + decimal(columns as nat) + text(",r=") + decimal(
                rows as nat,
            ) + text(",q=2,i=") + decimal(PET_IMAGE_ID as nat) + text(",m=")
        } else {
            seq![27u8] + text("_Gm=")
        }) + seq![if k + 1 < chunk_count(payload.len()) { 49u8 } else { 48u8 }, 59u8]
            + payload.subrange(
            (k * 4096) as int,
            if (k + 1) * 4096 < payload.len() { ((k + 1) * 4096) as int } else { payload.len() as int },
        ) + seq![27u8, 92u8],
        k * 4096 < payload.len(),
{
    let len = payload.len();
    assert((k + 1) * 4096 < len <==> k + 1 < chunk_count(len)) by (nonlinear_arith)
        requires chunk_count(len) == (len + 4095) / 4096;
    assert(k * 4096 < len) by (nonlinear_arith)
        requires k < (len + 4095) / 4096;
    reveal_strlit(";");
    assert(vstd::utf8::is_ascii_chars(";"@));
    vstd::utf8::is_ascii_chars_encode_utf8(";"@);
    assert(text(";") =~= seq![59u8]);
    assert(decimal(1) =~= seq![49u8]);
    assert(decimal(0) =~= seq![48u8]);
    let flag: Seq<u8> = seq![if k + 1 < chunk_count(len) { 49u8 } else { 48u8 }, 59u8];
    assert(decimal(more_chunks(payload, k)) + text(";") =~= flag);
    if k == 0 {
        let head = seq![27u8] + text("_Ga=T,t=d,f=100,c=") + decimal(columns as nat) + text(",r=") + decimal(
            rows as nat,
        ) + text(",q=2,i=") + decimal(PET_IMAGE_ID as nat) + text(",m=");
        assert(kitty_chunk_command(payload, k, columns, rows) =~= head + flag + payload_chunk(payload, k)
            + seq![27u8, 92u8]);
    } else {
        let head = seq![27u8] + text("_Gm=");
        assert(kitty_chunk_command(payload, k, columns, rows) =~= head + flag + payload_chunk(payload, k)
            + seq![27u8, 92u8]);
    }
}

/// The Kitty graphics commands that show a PNG inline, its base64 payload sent in
/// chunks.
pub open spec fn kitty_inline_commands(png: Seq<u8>, columns: u16, rows: u16) -> Seq<u8> {
    let payload = base64_standard(png);
    kitty_chunk_commands(payload, columns, rows, chunk_count(payload.len()))
}

/// The Kitty graphics command that shows the PNG file at a path, given as base64.
pub open spec fn kitty_file_command(path: Seq<u8>, columns: u16, rows: u16) -> Seq<u8> {
    seq![27u8] + text("_Ga=T,t=f,f=100,c=") + decimal(columns as nat) + text(",r=") + decimal(
        rows as nat,
    ) + text(",q=2,i=") + decimal(PET_IMAGE_ID as nat) + text(";") + base64_standard(path)
        + seq![27u8, 92u8]
}

/// The first `n` of the `rows` line erasures that clear a Sixel image: each erases a
/// line and, but for the last, moves down one line to the first column.
pub open spec fn clear_lines(rows: u16, n: nat) -> Seq<u8>
    decreases n,
{
    if n == 0 {
        Seq::empty()
    } else {
        clear_lines(rows, (n - 1) as nat) + seq![27u8] + text("[2K") + if n < rows {
            seq![27u8] + text("[1B\r")
        } else {
            Seq::empty()
        }
    }
}

/// Wraps a command for tmux passthrough when running inside tmux.
pub fn wrap_tmux(command: &[u8], in_tmux: bool) -> (wrapped: Vec<u8>)
    ensures
        wrapped@ == tmux_wrapped(command@, in_tmux),
{
    let mut out: Vec<u8> = Vec::new();
    if !in_tmux {
        push_all(&mut out, command);
        return out;
    }
    out.push(27u8);
    push_all(&mut out, "Ptmux;".as_bytes());
    let ghost start = out@;
    let mut i: usize = 0;
    while i < command.len()
        invariant
            i <= command@.len(),
            out@ == start + tmux_escaped(command@.take(i as int)),
        decreases command@.len() - i,
    {
        let b = command[i];
        if b == 27 {
            out.push(27u8);
            out.push(27u8);
        } else {
            out.push(b);
        }
        assert(command@.take(i + 1).drop_last() =~= command@.take(i as int));
        i = i + 1;
        assert(out@ =~= start + tmux_escaped(command@.take(i as int)));
    }
    assert(command@.take(i as int) =~= command@);
    out.push(27u8);
    out.push(92u8);
    assert(out@ =~= tmux_wrapped(command@, in_tmux));
    out
}

/// The command that deletes the pet's Kitty image.
pub fn kitty_delete(in_tmux: bool) -> (command: Vec<u8>)
    ensures
        command@ == tmux_wrapped(kitty_delete_command(), in_tmux),
{
    let mut out: Vec<u8> = Vec::new();
    out.push(27u8);
    push_all(&mut out, "_Ga=d,d=I,i=".as_bytes());
    push_decimal(&mut out, PET_IMAGE_ID as u64);
    push_all(&mut out, ",q=2;".as_bytes());
    out.push(27u8);
    out.push(92u8);
    assert(out@ =~= kitty_delete_command());
    wrap_tmux(out.as_slice(), in_tmux)
}

/// The Kitty graphics commands that show a PNG inline, `columns` by `rows` cells, given
/// its base64 payload: the payload in chunks of 4096 bytes, the first with the image's
/// placement and each saying whether more follow.
pub fn kitty_chunks(payload: &[u8], columns: u16, rows: u16) -> (commands: Vec<u8>)
    requires
        payload@.len() <= usize::MAX - KITTY_CHUNK_SIZE,
    ensures
        commands@ == kitty_chunk_commands(payload@, columns, rows, chunk_count(payload@.len())),
{
    let len = payload.len();
    let mut out: Vec<u8> = Vec::new();
    let mut start: usize = 0;
    let ghost mut k: nat = 0;
    while start < len
        invariant
            len == payload@.len(),
            len <= usize::MAX - KITTY_CHUNK_SIZE,
            start == if k * KITTY_CHUNK_SIZE < len { k * KITTY_CHUNK_SIZE } else { len as int },
            k > 0 ==> (k - 1) * KITTY_CHUNK_SIZE < len,
            out@ == kitty_chunk_commands(payload@, columns, rows, k),
        decreases len + KITTY_CHUNK_SIZE - start,
    {
        let end: usize = if start + KITTY_CHUNK_SIZE < len { start + KITTY_CHUNK_SIZE } else { len };
        let more: u64 = if start + KITTY_CHUNK_SIZE < len { 1 } else { 0 };
        assert(start + KITTY_CHUNK_SIZE == (k + 1) * KITTY_CHUNK_SIZE);
        let ghost before = out@;
        out.push(27u8);
        if start == 0 {
            push_all(&mut out, "_Ga=T,t=d,f=100,c=".as_bytes());
            push_decimal(&mut out, columns as u64);
            push_all(&mut out, ",r=".as_bytes());
            push_decimal(&mut out, rows as u64);
            push_all(&mut out, ",q=2,i=".as_bytes());
            push_decimal(&mut out, PET_IMAGE_ID as u64);
            push_all(&mut out, ",m=".as_bytes());
        } else {
            push_all(&mut out, "_Gm=".as_bytes());
        }
        push_decimal(&mut out, more);
        push_all(&mut out, ";".as_bytes());
        let ghost mid = out@;
        let mut j: usize = start;
        while j < end
            invariant
                start <= j <= end,
                end <= payload@.len(),
                out@ == mid + payload@.subrange(start as int, j as int),
            decreases end - j,
        {
            out.push(payload[j]);
            j = j + 1;
            assert(out@ =~= mid + payload@.subrange(start as int, j as int));
        }
        out.push(27u8);
        out.push(92u8);
        proof {
            if start == 0 {
                assert(k == 0) by (nonlinear_arith)
                    requires start == k * KITTY_CHUNK_SIZE, start == 0;
            } else {
                assert(k != 0);
            }
            assert(out@ =~= before + kitty_chunk_command(payload@, k, columns, rows));
            k = k + 1;
        }
        start = end;
    }
    proof {
        assert(k * KITTY_CHUNK_SIZE >= len);
        if k > 0 {
            assert(k == chunk_count(len as nat)) by (nonlinear_arith)
                requires (k - 1) * KITTY_CHUNK_SIZE < len, k * KITTY_CHUNK_SIZE >= len, KITTY_CHUNK_SIZE == 4096;
        } else {
            assert(len == 0);
        }
    }
    out
}

/// The commands that show a PNG inline with Kitty graphics, `columns` by `rows` cells.
pub fn kitty_inline(png: &[u8], columns: u16, rows: u16, in_tmux: bool) -> (command: Vec<u8>)
    requires
        png@.len() <= usize::MAX / 2,
    ensures
        command@ == tmux_wrapped(kitty_inline_commands(png@, columns, rows), in_tmux),
{
    let payload = base64_encode(png);
    proof {
        lemma_base64_len(png@);
    }
    let len = payload.len();
    assert(len <= usize::MAX - KITTY_CHUNK_SIZE) by (nonlinear_arith)
        requires len == 4 * ((png@.len() + 2) / 3), png@.len() <= usize::MAX / 2;
    let out = kitty_chunks(payload.as_slice(), columns, rows);
    wrap_tmux(out.as_slice(), in_tmux)
}

/// The command that shows the PNG file at a path with Kitty graphics, `columns` by
/// `rows` cells; the path is given as the bytes of its canonical form.
pub fn kitty_file(path: &[u8], columns: u16, rows: u16, in_tmux: bool) -> (command: Vec<u8>)
    requires
        path@.len() <= usize::MAX / 2,
    ensures
        command@ == tmux_wrapped(kitty_file_command(path@, columns, rows), in_tmux),
{
    let payload = base64_encode(path);
    let mut out: Vec<u8> = Vec::new();
    out.push(27u8);
    push_all(&mut out, "_Ga=T,t=f,f=100,c=".as_bytes());
    push_decimal(&mut out, columns as u64);
    push_all(&mut out, ",r=".as_bytes());
    push_decimal(&mut out, rows as u64);
    push_all(&mut out, ",q=2,i=".as_bytes());
    push_decimal(&mut out, PET_IMAGE_ID as u64);
    push_all(&mut out, ";".as_bytes());
    push_all(&mut out, payload.as_slice());
    out.push(27u8);
    out.push(92u8);
    assert(out@ =~= kitty_file_command(path@, columns, rows));
    wrap_tmux(out.as_slice(), in_tmux)
}

/// The commands that erase the `rows` lines a Sixel image covers, from the cursor down.
pub fn clear_sixel_area(rows: u16) -> (command: Vec<u8>)
    ensures
        command@ == clear_lines(rows, rows as nat),
{
    let mut out: Vec<u8> = Vec::new();
    let mut row: u16 = 0;
    while row < rows
        invariant
            row <= rows,
            out@ == clear_lines(rows, row as nat),
        decreases rows - row,
    {
        let ghost before = out@;
        out.push(27u8);
        push_all(&mut out, "[2K".as_bytes());
        if row + 1 < rows {
            out.push(27u8);
            push_all(&mut out, "[1B\r".as_bytes());
        }
        row = row + 1;
        assert(out@ =~= clear_lines(rows, row as nat));
    }
    out
}

/// Save cursor (`ESC 7`).
pub open spec fn save_cursor() -> Seq<u8> {
    seq![27u8, 55u8]
}

/// Restore cursor (`ESC 8`).
pub open spec fn restore_cursor() -> Seq<u8> {
    seq![27u8, 56u8]
}

/// What draws a frame at the cursor, which is saved first and restored after: with Kitty
/// graphics, the old image is deleted and the frame's PNG, inline or from a file, shown;
/// with Sixel, the area is cleared, the cursor put back, and the frame's Sixel image
/// drawn.
pub open spec fn frame_commands(protocol: ImageProtocol, payload: Seq<u8>, columns: u16, rows: u16, in_tmux: bool) -> Seq<u8> {
    save_cursor() + match protocol {
        ImageProtocol::Kitty => tmux_wrapped(kitty_delete_command(), in_tmux) + tmux_wrapped(
            kitty_inline_commands(payload, columns, rows),
            in_tmux,
        ),
        ImageProtocol::KittyFile => tmux_wrapped(kitty_delete_command(), in_tmux) + tmux_wrapped(
            kitty_file_command(payload, columns, rows),
            in_tmux,
        ),
        ImageProtocol::Sixel => clear_lines(rows, rows as nat) + restore_cursor() + save_cursor()
            + payload,
    } + restore_cursor()
}

/// What removes the pet from the screen: the Kitty image deleted, or the Sixel area
/// cleared, with the cursor saved first and restored after.
pub open spec fn clear_commands(protocol: ImageProtocol, rows: u16, in_tmux: bool) -> Seq<u8> {
    save_cursor() + match protocol {
        ImageProtocol::Sixel => clear_lines(rows, rows as nat),
        _ => tmux_wrapped(kitty_delete_command(), in_tmux),
    } + restore_cursor()
}

/// The bytes that draw one frame of the pet, `columns` by `rows` cells; `payload` is the
/// frame's PNG for Kitty graphics, the canonical path of its PNG file for file-based
/// Kitty graphics, and its Sixel image for Sixel.
pub fn render_frame(protocol: ImageProtocol, payload: &[u8], columns: u16, rows: u16, in_tmux: bool) -> (command: Vec<u8>)
    requires
        payload@.len() <= usize::MAX / 2,
    ensures
        command@ == frame_commands(protocol, payload@, columns, rows, in_tmux),
{
    let mut out: Vec<u8> = Vec::new();
    out.push(27u8);
    out.push(55u8);
    match protocol {
        ImageProtocol::Kitty => {
            let delete = kitty_delete(in_tmux);
            push_all(&mut out, delete.as_slice());
            let inline = kitty_inline(payload, columns, rows, in_tmux);
            push_all(&mut out, inline.as_slice());
        },
        ImageProtocol::KittyFile => {
            let delete = kitty_delete(in_tmux);
            push_all(&mut out, delete.as_slice());
            let file = kitty_file(payload, columns, rows, in_tmux);
            push_all(&mut out, file.as_slice());
        },
        ImageProtocol::Sixel => {
            let clear = clear_sixel_area(rows);
            push_all(&mut out, clear.as_slice());
            out.push(27u8);
            out.push(56u8);
            out.push(27u8);
            out.push(55u8);
            push_all(&mut out, payload);
        },
    }
    out.push(27u8);
    out.push(56u8);
    assert(out@ =~= frame_commands(protocol, payload@, columns, rows, in_tmux));
    out
}

/// The bytes that remove the pet from the screen.
pub fn clear_frame(protocol: ImageProtocol, rows: u16, in_tmux: bool) -> (command: Vec<u8>)
    ensures
        command@ == clear_commands(protocol, rows, in_tmux),
{
    let mut out: Vec<u8> = Vec::new();
    out.push(27u8);
    out.push(55u8);
    match protocol {
        ImageProtocol::Sixel => {
            let clear = clear_sixel_area(rows);
            push_all(&mut out, clear.as_slice());
        },
        _ => {
            let delete = kitty_delete(in_tmux);
            push_all(&mut out, delete.as_slice());
        },
    }
    out.push(27u8);
    out.push(56u8);
    assert(out@ =~= clear_commands(protocol, rows, in_tmux));
    out
}

} // verus!
