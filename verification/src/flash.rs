//! The flash-and-verify procedure, shared by both buses: resolve the
//! firmware file, select the target, stream the file in carriage-return
//! records with fixed pacing, await the bootloader token against a
//! deadline, and verify the reported identity afterwards. Every decision is
//! made here; the waiting, reading and writing happen outside the library.

use vstd::prelude::*;
use crate::addresses::board_type_spec;
use crate::catalog::{versions_list_ok, Catalog};
use crate::strutil::{contains_sub, is_digit, match_at, scan_to, str_contains, trim_spec};
use crate::version::norm_spec;

verus! {

/// Everything one flash run needs to know, resolved up front: the commands
/// to send, the file to stream, the pacing, and what the device must report
/// afterwards.
#[derive(Debug)]
pub struct FlashPlan {
    /// Address-select command to send first, for the bus that needs one.
    pub select_cmd: Option<String>,
    /// Path of the firmware file to stream.
    pub file_path: String,
    /// Delay between records while streaming, in milliseconds.
    pub pacing_ms: u64,
    /// Token the bootloader emits when it has applied the image.
    pub ack_token: String,
    /// Identity probe to send for verification.
    pub id_cmd: String,
    /// Prefix of the identity line that answers it.
    pub id_prefix: String,
    /// Board name the device must report.
    pub expected_board: String,
    /// Canonical version the device must report.
    pub expected_version: String,
    /// Whether leading zeros are stripped from the reported major version
    /// before comparing.
    pub strip_major_zeros: bool,
    /// Broadcast to send after verification, for the bus that wants one.
    pub broadcast_cmd: Option<String>,
}

/// Why a flash could not start.
#[derive(Debug, PartialEq, Eq)]
pub enum FlashError {
    /// The requested address is not in the EXP address table.
    UnknownBoardAddress { address: String },
    /// The catalog holds no file for the resolved key and version; the
    /// versions it does hold for the key are reported.
    FirmwareNotFound { key: String, available: Option<Vec<String>> },
}

/// How long to keep polling for the bootloader token, in milliseconds.
pub const BOOT_ACK_DEADLINE_MS: u64 = 30000;

/// How long to keep collecting the identity reply, in milliseconds.
pub const VERIFY_DEADLINE_MS: u64 = 5000;

/// Plans a firmware update for the EXP board at the given bus address:
/// resolves the board type from the fixed address table and the file from
/// the catalog under `"{BoardType}_EXP"` and the normalized version.
pub fn plan_exp_update(catalog: &Catalog, address: &str, version: &str) -> (r: Result<
    FlashPlan,
    FlashError,
>)
    requires
        catalog.wf(),
    ensures
        match r {
            Ok(p) => board_type_spec(address@) matches Some(bt) && {
                let key = bt + ("_EXP")@;
                let nv = norm_spec(version@);
                &&& catalog.model().contains_key(key)
                &&& catalog.model()[key].contains_key(nv)
                &&& p.file_path@ == catalog.model()[key][nv]
                &&& p.select_cmd matches Some(sc) && sc@ == ("ea:")@ + address@ + ("\r")@
                &&& p.pacing_ms == 200
                &&& p.ack_token@ == ("!BL2040:02")@
                &&& p.id_cmd@ == ("ID@")@ + address@ + (":\r")@
                &&& p.id_prefix@ == ("ID:EXP")@
                &&& p.expected_board@ == bt
                &&& p.expected_version@ == nv
                &&& p.strip_major_zeros == false
                &&& p.broadcast_cmd is None
            },
            Err(e) => match e {
                FlashError::UnknownBoardAddress { address: a } => a@ == address@
                    && board_type_spec(address@) is None,
                FlashError::FirmwareNotFound { key, available } => board_type_spec(
                    address@,
                ) matches Some(bt) && {
                    let nv = norm_spec(version@);
                    &&& key@ == bt + ("_EXP")@
                    &&& !(catalog.model().contains_key(key@) && catalog.model()[key@].contains_key(
                        nv,
                    ))
                    &&& (catalog.model().contains_key(key@) ==> (available matches Some(v)
                        && versions_list_ok(catalog.model()[key@], v@)))
                    &&& (!catalog.model().contains_key(key@) ==> available is None)
                },
            },
        },
{
    let board_type = match crate::addresses::board_type_for_address(address) {
        Some(bt) => bt,
        None => {
            return Err(FlashError::UnknownBoardAddress { address: address.to_owned() });
        },
    };
    let normalized = crate::version::normalize_version(version);
    let mut key = board_type.clone();
    key.append("_EXP");
    match catalog.lookup_path(key.as_str(), normalized.as_str()) {
        Some(file_path) => Ok(
            FlashPlan {
                select_cmd: Some(crate::enumerate::ea_command(address)),
                file_path,
                pacing_ms: 200,
                ack_token: String::from_str("!BL2040:02"),
                id_cmd: crate::enumerate::exp_id_command(address),
                id_prefix: String::from_str("ID:EXP"),
                expected_board: board_type,
                expected_version: normalized,
                strip_major_zeros: false,
                broadcast_cmd: None,
            },
        ),
        None => {
            let available = catalog.available_versions(key.as_str());
            Err(FlashError::FirmwareNotFound { key, available })
        },
    }
}

/// Plans a firmware update for the NET controller: the catalog key is the
/// fixed `"FP-CPU-2000_NET"`, no address is selected, pacing is slower, the
/// bootloader token differs, leading zeros of the reported major version are
/// forgiven, and a broadcast follows verification.
pub fn plan_net_update(catalog: &Catalog, version: &str) -> (r: Result<FlashPlan, FlashError>)
    requires
        catalog.wf(),
    ensures
        match r {
            Ok(p) => {
                let key = ("FP-CPU-2000_NET")@;
                let nv = norm_spec(version@);
                &&& catalog.model().contains_key(key)
                &&& catalog.model()[key].contains_key(nv)
                &&& p.file_path@ == catalog.model()[key][nv]
                &&& p.select_cmd is None
                &&& p.pacing_ms == 400
                &&& p.ack_token@ == ("!B:02")@
                &&& p.id_cmd@ == ("ID:\r")@
                &&& p.id_prefix@ == ("ID:NET")@
                &&& p.expected_board@ == ("FP-CPU-2000")@
                &&& p.expected_version@ == nv
                &&& p.strip_major_zeros == true
                &&& p.broadcast_cmd matches Some(bc) && bc@ == ("bn:aa55\r")@
            },
            Err(e) => match e {
                FlashError::UnknownBoardAddress { .. } => false,
                FlashError::FirmwareNotFound { key, available } => {
                    let nv = norm_spec(version@);
                    &&& key@ == ("FP-CPU-2000_NET")@
                    &&& !(catalog.model().contains_key(key@) && catalog.model()[key@].contains_key(
                        nv,
                    ))
                    &&& (catalog.model().contains_key(key@) ==> (available matches Some(v)
                        && versions_list_ok(catalog.model()[key@], v@)))
                    &&& (!catalog.model().contains_key(key@) ==> available is None)
                },
            },
        },
{
    let normalized = crate::version::normalize_version(version);
    let key = String::from_str("FP-CPU-2000_NET");
    match catalog.lookup_path(key.as_str(), normalized.as_str()) {
        Some(file_path) => Ok(
            FlashPlan {
                select_cmd: None,
                file_path,
                pacing_ms: 400,
                ack_token: String::from_str("!B:02"),
                id_cmd: String::from_str("ID:\r"),
                id_prefix: String::from_str("ID:NET"),
                expected_board: String::from_str("FP-CPU-2000"),
                expected_version: normalized,
                strip_major_zeros: true,
                broadcast_cmd: Some(crate::enumerate::broadcast_command()),
            },
        ),
        None => {
            let available = catalog.available_versions(key.as_str());
            Err(FlashError::FirmwareNotFound { key, available })
        },
    }
}

/// Concatenation of a run of records.
pub open spec fn concat_records(rs: Seq<Seq<u8>>) -> Seq<u8>
    decreases rs.len(),
{
    if rs.len() == 0 {
        Seq::empty()
    } else {
        concat_records(rs.drop_last()) + rs.last()
    }
}

/// Byte views of a record list.
pub open spec fn record_views(rs: Seq<Vec<u8>>) -> Seq<Seq<u8>> {
    rs.map_values(|r: Vec<u8>| r@)
}

/// Splits a firmware image into the records the device is fed: each record
/// runs through its terminating carriage return, which is kept, so the
/// records concatenate back to the image byte for byte; only the last
/// record may lack the terminator.
pub fn split_records(data: &Vec<u8>) -> (rs: Vec<Vec<u8>>)
    ensures
        concat_records(record_views(rs@)) == data@,
        forall|k: int| 0 <= k < rs@.len() ==> (#[trigger] rs@[k])@.len() > 0,
        forall|k: int, m: int|
            0 <= k < rs@.len() && 0 <= m < rs@[k]@.len() - 1 ==> #[trigger] rs@[k]@[m] != 13,
        forall|k: int| 0 <= k < rs@.len() - 1 ==> (#[trigger] rs@[k])@.last() == 13,
{
    let len = data.len();
    let mut rs: Vec<Vec<u8>> = Vec::new();
    let mut i: usize = 0;
    while i < len
        invariant
            len == data@.len(),
            i <= len,
            concat_records(record_views(rs@)) == data@.subrange(0, i as int),
            forall|k: int| 0 <= k < rs@.len() ==> (#[trigger] rs@[k])@.len() > 0,
            forall|k: int, m: int|
                0 <= k < rs@.len() && 0 <= m < rs@[k]@.len() - 1 ==> #[trigger] rs@[k]@[m]
                != 13,
            forall|k: int| 0 <= k < rs@.len() - 1 ==> (#[trigger] rs@[k])@.last() == 13,
            i < len && rs@.len() > 0 ==> rs@[rs@.len() - 1]@.last() == 13,
        decreases len - i,
    {
        let mut j: usize = i;
        while j < len && data[j] != 13
            invariant
                len == data@.len(),
                i <= j <= len,
                forall|m: int| i <= m < j ==> data@[m] != 13,
            decreases len - j,
        {
            j += 1;
        }
        let end = if j < len {
            j + 1
        } else {
            j
        };
        let mut rec: Vec<u8> = Vec::new();
        let mut m: usize = i;
        while m < end
            invariant
                len == data@.len(),
                i <= m <= end <= len,
                rec@ == data@.subrange(i as int, m as int),
            decreases end - m,
        {
            proof {
                assert(data@.subrange(i as int, m + 1).drop_last() =~= data@.subrange(
                    i as int,
                    m as int,
                ));
            }
            rec.push(data[m]);
            m += 1;
        }
        proof {
            assert(record_views(rs@.push(rec)) =~= record_views(rs@).push(rec@));
            assert(record_views(rs@.push(rec)).drop_last() =~= record_views(rs@));
            assert(data@.subrange(0, i as int) + data@.subrange(i as int, end as int)
                =~= data@.subrange(0, end as int));
        }
        rs.push(rec);
        i = end;
    }
    proof {
        assert(data@.subrange(0, len as int) =~= data@);
    }
    rs
}

/// What a bootloader-wait poll decides after each read: done because the
/// token arrived, done because the deadline passed, or keep waiting.
#[derive(Debug, PartialEq, Eq)]
pub enum PollVerdict {
    /// The accumulated text holds the token: the device finished applying
    /// the image.
    AckSeen,
    /// Keep reading: no token yet and time remains.
    KeepWaiting,
    /// The deadline passed without the token. Not fatal: verification
    /// proceeds regardless.
    DeadlineExpired,
}

/// One decision of the deadline-bounded bootloader wait, over the text
/// accumulated so far and the elapsed time.
pub fn bootloader_poll_step(accumulated: &str, token: &str, elapsed_ms: u64, deadline_ms: u64) -> (v:
    PollVerdict)
    ensures
        v == (if contains_sub(accumulated@, token@) {
            PollVerdict::AckSeen
        } else if elapsed_ms >= deadline_ms {
            PollVerdict::DeadlineExpired
        } else {
            PollVerdict::KeepWaiting
        }),
{
    if str_contains(accumulated, token) {
        PollVerdict::AckSeen
    } else if elapsed_ms >= deadline_ms {
        PollVerdict::DeadlineExpired
    } else {
        PollVerdict::KeepWaiting
    }
}

/// Whether the identity-collection wait is over: a line break arrived in
/// the accumulated reply, or the deadline passed.
pub fn id_poll_done(accumulated: &str, elapsed_ms: u64, deadline_ms: u64) -> (r: bool)
    ensures
        r == (contains_sub(accumulated@, ("\n")@) || contains_sub(accumulated@, ("\r")@)
            || elapsed_ms >= deadline_ms),
{
    str_contains(accumulated, "\n") || str_contains(accumulated, "\r") || elapsed_ms >= deadline_ms
}

/// Progress of one flash stream, for reporting: total size and bytes sent,
/// which never pass the saturation bound.
pub struct StreamProgress {
    pub total_bytes: u64,
    pub bytes_sent: u64,
}

impl StreamProgress {
    /// Starts a progress record for an image of the given size.
    pub fn new(total_bytes: u64) -> (r: StreamProgress)
        ensures
            r.total_bytes == total_bytes,
            r.bytes_sent == 0,
    {
        StreamProgress { total_bytes, bytes_sent: 0 }
    }

    /// Accounts one sent record, saturating rather than overflowing.
    pub fn record_sent(&mut self, n: u64)
        ensures
            final(self).total_bytes == old(self).total_bytes,
            final(self).bytes_sent == if old(self).bytes_sent + n > u64::MAX {
                u64::MAX as int
            } else {
                old(self).bytes_sent + n
            },
    {
        if n > u64::MAX - self.bytes_sent {
            self.bytes_sent = u64::MAX;
        } else {
            self.bytes_sent = self.bytes_sent + n;
        }
    }
}


/// Version characters that survive cleaning: digits and the dot.
pub open spec fn keeps_ver_char(c: char) -> bool {
    is_digit(c) || c == '.'
}

/// A reported version token with trailing characters that are neither
/// digits nor dots removed, as line noise after the number is common.
pub open spec fn clean_version_spec(v: Seq<char>) -> Seq<char>
    decreases v.len(),
{
    if v.len() > 0 && !keeps_ver_char(v[v.len() - 1]) {
        clean_version_spec(v.drop_last())
    } else {
        v
    }
}

/// `s` with leading zero characters removed.
pub open spec fn zeros_stripped(s: Seq<char>) -> Seq<char>
    decreases s.len(),
{
    if s.len() > 0 && s[0] == '0' {
        zeros_stripped(s.drop_first())
    } else {
        s
    }
}

/// A numeral text that lost all its characters reads as zero.
pub open spec fn or_zero(s: Seq<char>) -> Seq<char> {
    if s.len() == 0 {
        seq!['0']
    } else {
        s
    }
}

/// A reported version with leading zeros removed from its major part, so a
/// device reporting `"02.28"` matches an expected `"2.28"`.
pub open spec fn strip_major_spec(v: Seq<char>) -> Seq<char> {
    let d = scan_to(v, '.', 0);
    if d < v.len() {
        or_zero(zeros_stripped(v.subrange(0, d))) + seq!['.'] + v.subrange(d + 1, v.len() as int)
    } else {
        or_zero(zeros_stripped(v))
    }
}

/// The reported version as it is compared: cleaned, and with major-part
/// zeros forgiven where the plan says so.
pub open spec fn cooked_version(v: Seq<char>, strip: bool) -> Seq<char> {
    if strip {
        strip_major_spec(clean_version_spec(v))
    } else {
        clean_version_spec(v)
    }
}

/// Whether `c` survives version cleaning.
fn keeps_char(c: char) -> (r: bool)
    ensures
        r == keeps_ver_char(c),
{
    ('0' <= c && c <= '9') || c == '.'
}

proof fn lemma_clean_at(v: Seq<char>, h: int)
    requires
        0 <= h <= v.len(),
        forall|k: int| h <= k < v.len() ==> !keeps_ver_char(v[k]),
        h == 0 || keeps_ver_char(v[h - 1]),
    ensures
        clean_version_spec(v) == v.subrange(0, h),
    decreases v.len(),
{
    if h == v.len() {
        assert(v.subrange(0, v.len() as int) =~= v);
    } else {
        let t = v.drop_last();
        lemma_clean_at(t, h);
        assert(t.subrange(0, h) =~= v.subrange(0, h));
    }
}

proof fn lemma_zeros_at(s: Seq<char>, z: int)
    requires
        0 <= z <= s.len(),
        forall|k: int| 0 <= k < z ==> s[k] == '0',
        z == s.len() || s[z] != '0',
    ensures
        zeros_stripped(s) == s.subrange(z, s.len() as int),
    decreases z,
{
    if z == 0 {
        assert(s.subrange(0, s.len() as int) =~= s);
    } else {
        let t = s.drop_first();
        lemma_zeros_at(t, z - 1);
        assert(t.subrange(z - 1, t.len() as int) =~= s.subrange(z, s.len() as int));
    }
}

/// Cleans a reported version token of trailing non-version characters.
fn clean_version(v: &str) -> (r: String)
    ensures
        r@ == clean_version_spec(v@),
{
    let len = v.unicode_len();
    let mut h: usize = len;
    while h > 0 && !keeps_char(v.get_char(h - 1))
        invariant
            len == v@.len(),
            h <= len,
            forall|k: int| h <= k < len ==> !keeps_ver_char(v@[k]),
        decreases h,
    {
        h -= 1;
    }
    let r = v.substring_char(0, h).to_owned();
    proof {
        lemma_clean_at(v@, h as int);
    }
    r
}

/// Strips leading zeros from the major part of a reported version.
fn strip_major(v: &str) -> (r: String)
    ensures
        r@ == strip_major_spec(v@),
{
    let len = v.unicode_len();
    let mut d: usize = 0;
    while d < len && v.get_char(d) != '.'
        invariant
            len == v@.len(),
            d <= len,
            scan_to(v@, '.', 0) == scan_to(v@, '.', d as int),
        decreases len - d,
    {
        d += 1;
    }
    assert(scan_to(v@, '.', 0) == d);
    let major_end = d;
    let mut z: usize = 0;
    while z < major_end && v.get_char(z) == '0'
        invariant
            len == v@.len(),
            major_end <= len,
            z <= major_end,
            forall|k: int| 0 <= k < z ==> v@[k] == '0',
        decreases major_end - z,
    {
        z += 1;
    }
    proof {
        let maj = v@.subrange(0, major_end as int);
        lemma_zeros_at(maj, z as int);
        assert(maj.subrange(z as int, maj.len() as int) =~= v@.subrange(
            z as int,
            major_end as int,
        ));
        if z == major_end {
            assert(v@.subrange(z as int, major_end as int) =~= Seq::<char>::empty());
        }
    }
    let ghost stripped = or_zero(zeros_stripped(v@.subrange(0, major_end as int)));
    let mut out: String = if z == major_end {
        String::from_str("0")
    } else {
        v.substring_char(z, major_end).to_owned()
    };
    proof {
        reveal_strlit("0");
        assert(("0")@ =~= seq!['0']);
        assert(out@ == stripped);
    }
    if d < len {
        out.append(".");
        let rest = v.substring_char(d + 1, len);
        out.append(rest);
        proof {
            reveal_strlit(".");
            assert((".")@ =~= seq!['.']);
            assert(out@ =~= stripped + seq!['.'] + v@.subrange(d + 1, v@.len() as int));
        }
    } else {
        proof {
            assert(v@.subrange(0, major_end as int) =~= v@);
        }
    }
    out
}

/// What the identity check after a flash concluded.
#[derive(Debug, PartialEq, Eq)]
pub enum VerifyOutcome {
    /// The first identity line reported exactly the expected board and
    /// version.
    Verified,
    /// The first identity line parsed but disagreed; which fields agreed is
    /// recorded along with what was read.
    Mismatch { board_ok: bool, version_ok: bool, board: String, version: String, line: String },
    /// The first identity line lacked the three expected tokens.
    UnparseableLine { line: String },
    /// No line of the reply began with the identity prefix.
    NoIdLine,
}

/// Index of the first line whose trimmed text begins with `prefix`, looking
/// from line `i` on.
pub open spec fn first_prefixed_line(lines: Seq<Seq<char>>, prefix: Seq<char>, i: int) -> Option<
    int,
>
    decreases lines.len() - i,
{
    if i < 0 || i >= lines.len() {
        None
    } else if match_at(trim_spec(lines[i]), prefix, 0) {
        Some(i)
    } else {
        first_prefixed_line(lines, prefix, i + 1)
    }
}

/// Judges the collected identity reply against the plan's expectations: the
/// first line beginning with the identity prefix is split on whitespace,
/// its second token must name the expected board and its third, cleaned and
/// cooked, the expected version.
pub fn verify_id_response(
    resp: &str,
    id_prefix: &str,
    expected_board: &str,
    expected_version: &str,
    strip_major_zeros: bool,
) -> (r: VerifyOutcome)
    ensures
        ({
            let lines = crate::strutil::lines_from(resp@, 0);
            let at = first_prefixed_line(lines, id_prefix@, 0);
            match r {
                VerifyOutcome::NoIdLine => at is None,
                VerifyOutcome::UnparseableLine { line } => at matches Some(i) && {
                    let l = trim_spec(lines[i]);
                    line@ == l && crate::strutil::tokens_from(l, 0).len() < 3
                },
                VerifyOutcome::Verified => at matches Some(i) && {
                    let toks = crate::strutil::tokens_from(trim_spec(lines[i]), 0);
                    &&& toks.len() >= 3
                    &&& toks[1] == expected_board@
                    &&& cooked_version(toks[2], strip_major_zeros) == expected_version@
                },
                VerifyOutcome::Mismatch { board_ok, version_ok, board, version, line } => at
                    matches Some(i) && {
                    let l = trim_spec(lines[i]);
                    let toks = crate::strutil::tokens_from(l, 0);
                    &&& toks.len() >= 3
                    &&& board@ == toks[1]
                    &&& version@ == cooked_version(toks[2], strip_major_zeros)
                    &&& line@ == l
                    &&& board_ok == (toks[1] == expected_board@)
                    &&& version_ok == (cooked_version(toks[2], strip_major_zeros)
                        == expected_version@)
                    &&& !(board_ok && version_ok)
                },
            }
        }),
{
    let ghost lines = crate::strutil::lines_from(resp@, 0);
    let lv = crate::strutil::split_lines(resp);
    let n = lv.len();
    let mut i: usize = 0;
    while i < n
        invariant
            lines == crate::strutil::lines_from(resp@, 0),
            crate::strutil::views_of(lv@) == lines,
            n == lv@.len(),
            i <= n,
            first_prefixed_line(lines, id_prefix@, 0) == first_prefixed_line(
                lines,
                id_prefix@,
                i as int,
            ),
        decreases n - i,
    {
        let l = crate::strutil::trim_str(lv[i].as_str());
        proof {
            assert(lv@[i as int]@ == lines[i as int]);
        }
        if crate::strutil::str_starts_with(l, id_prefix) {
            let toks = crate::strutil::tokenize(l);
            if toks.len() < 3 {
                return VerifyOutcome::UnparseableLine { line: l.to_owned() };
            }
            let board = toks[1].clone();
            let cleaned = clean_version(toks[2].as_str());
            let version = if strip_major_zeros {
                strip_major(cleaned.as_str())
            } else {
                cleaned
            };
            proof {
                assert(board@ == crate::strutil::views_of(toks@)[1]);
                assert(toks@[2]@ == crate::strutil::views_of(toks@)[2]);
            }
            let board_ok = crate::strutil::str_eq(board.as_str(), expected_board);
            let version_ok = crate::strutil::str_eq(version.as_str(), expected_version);
            if board_ok && version_ok {
                return VerifyOutcome::Verified;
            }
            return VerifyOutcome::Mismatch {
                board_ok,
                version_ok,
                board,
                version,
                line: l.to_owned(),
            };
        }
        i += 1;
    }
    VerifyOutcome::NoIdLine
}

} // verus!
