//! Paired-device records, the fixed-format line parser, device-list
//! filtering and ordering, and the connect/disconnect/toggle logic.

use vstd::prelude::*;
use vstd::string::StrSliceExecFns;
use vstd::string::StringExecFns;

verus! {

broadcast use vstd::seq_lib::group_filter_ensures;

// ---------------------------------------------------------------------------
// Case-insensitive text
// ---------------------------------------------------------------------------

/// The character sequence that `str::to_lowercase` produces for `s`.
pub uninterp spec fn lower_of(s: Seq<char>) -> Seq<char>;

/// Relies on str::to_lowercase: the result depends on the characters alone.
#[verifier::external_body]
fn to_lower(s: &str) -> (r: String)
    ensures
        r@ == lower_of(s@),
{
    s.to_lowercase()
}

// ---------------------------------------------------------------------------
// Substring occurrence
// ---------------------------------------------------------------------------

/// `pat` occurs in `s` starting at position `i`.
pub open spec fn pattern_at(s: Seq<char>, i: int, pat: Seq<char>) -> bool {
    0 <= i && i + pat.len() <= s.len() && s.subrange(i, i + pat.len()) == pat
}

/// `pat` occurs somewhere in `s`.
pub open spec fn contains_pattern(s: Seq<char>, pat: Seq<char>) -> bool {
    exists|i: int| pattern_at(s, i, pat)
}

/// Whether `pat` occurs in `hay` starting at character position `i`.
#[verifier::loop_isolation(false)]
fn pattern_matches_at(hay: &str, i: usize, pat: &str) -> (r: bool)
    requires
        i + pat@.len() <= hay@.len(),
    ensures
        r == pattern_at(hay@, i as int, pat@),
{
    let n = hay.unicode_len();
    let m = pat.unicode_len();
    let mut k: usize = 0;
    while k < m
        invariant
            0 <= k <= m,
            n == hay@.len(),
            m == pat@.len(),
            i + m <= n,
            forall|kk: int| 0 <= kk < k ==> hay@[i + kk] == pat@[kk],
        decreases m - k,
    {
        if hay.get_char(i + k) != pat.get_char(k) {
            proof {
                assert(hay@.subrange(i as int, i + m) != pat@) by {
                    assert(hay@.subrange(i as int, i + m)[k as int] == hay@[i + k]);
                }
            }
            return false;
        }
        k += 1;
    }
    proof {
        assert(hay@.subrange(i as int, i + m) =~= pat@);
    }
    true
}

/// Whether `pat` occurs anywhere in `hay`, character for character.
#[verifier::loop_isolation(false)]
pub fn str_contains_pattern(hay: &str, pat: &str) -> (r: bool)
    ensures
        r == contains_pattern(hay@, pat@),
{
    let n = hay.unicode_len();
    let m = pat.unicode_len();
    if m > n {
        proof {
            assert(forall|i: int| !pattern_at(hay@, i, pat@));
        }
        return false;
    }
    if m == 0 {
        proof {
            assert(hay@.subrange(0, 0) =~= pat@);
            assert(pattern_at(hay@, 0, pat@));
        }
        return true;
    }
    let bound: usize = n - m;
    let mut i: usize = 0;
    while i <= bound
        invariant
            0 <= i <= bound + 1,
            bound == n - m,
            m <= n,
            n == hay@.len(),
            m == pat@.len(),
            forall|j: int| 0 <= j < i ==> !pattern_at(hay@, j, pat@),
        decreases bound + 1 - i,
    {
        proof {
            assert(i + m <= n);
        }
        if pattern_matches_at(hay, i, pat) {
            proof {
                assert(pattern_at(hay@, i as int, pat@));
            }
            return true;
        }
        i += 1;
    }
    proof {
        assert(forall|j: int| j > bound ==> !pattern_at(hay@, j, pat@));
    }
    false
}

// ---------------------------------------------------------------------------
// Device records and the fixed-format line parser
// ---------------------------------------------------------------------------

/// One paired device as reported by the external control tool.
#[derive(Debug, PartialEq)]
pub struct DeviceInfo {
    pub name: String,
    pub address: String,
    pub connected: bool,
}

impl Clone for DeviceInfo {
    fn clone(&self) -> (r: Self)
        ensures
            r == *self,
    {
        DeviceInfo {
            name: self.name.clone(),
            address: self.address.clone(),
            connected: self.connected,
        }
    }
}

/// A character the hardware identifier may contain: a letter, a digit,
/// an underscore or a hyphen.
pub open spec fn is_id_char(c: char) -> bool {
    let u = c as u32;
    (97 <= u && u <= 122) || (65 <= u && u <= 90) || (48 <= u && u <= 57) || u == 95 || u == 45
}

fn is_id_char_exec(c: char) -> (r: bool)
    ensures
        r == is_id_char(c),
{
    let u = c as u32;
    (97 <= u && u <= 122) || (65 <= u && u <= 90) || (48 <= u && u <= 57) || u == 95 || u == 45
}

/// The line opens with the literal `address: `, then exactly 17 identifier
/// characters, then a comma.
pub open spec fn has_address_part(s: Seq<char>) -> bool {
    &&& s.len() >= 27
    &&& pattern_at(s, 0, "address: "@)
    &&& (forall|k: int| 9 <= k < 26 ==> is_id_char(#[trigger] s[k]))
    &&& s[26] == ','
}

/// The literal `name: "` occurs at position `i`, after the address part,
/// with a closing double quote somewhere behind it.
pub open spec fn name_match_at(s: Seq<char>, i: int) -> bool {
    &&& 27 <= i
    &&& pattern_at(s, i, "name: \""@)
    &&& (exists|j: int| i + 7 <= j < s.len() && s[j] == '"')
}

/// `i` is the last position at which the name part can match; the capture
/// starts right behind it.
pub open spec fn is_name_start(s: Seq<char>, i: int) -> bool {
    name_match_at(s, i) && (forall|i2: int| i < i2 ==> !name_match_at(s, i2))
}

/// The line has the fixed record format the external tool emits.
pub open spec fn line_matches(s: Seq<char>) -> bool {
    has_address_part(s) && (exists|i: int| name_match_at(s, i))
}

pub open spec fn spec_name_start(s: Seq<char>) -> int {
    choose|i: int| is_name_start(s, i)
}

/// `j` is the first double quote at or behind `from`.
pub open spec fn is_quote_end(s: Seq<char>, from: int, j: int) -> bool {
    from <= j < s.len() && s[j] == '"' && (forall|k: int| from <= k < j ==> s[k] != '"')
}

/// Where the name capture begins: right behind the matched `name: "`.
pub open spec fn name_capture_start(s: Seq<char>) -> int {
    spec_name_start(s) + 7
}

pub open spec fn spec_name_end(s: Seq<char>) -> int {
    choose|j: int| is_quote_end(s, name_capture_start(s), j)
}

/// The captured hardware identifier: the 17 characters behind `address: `.
pub open spec fn spec_address_of(s: Seq<char>) -> Seq<char> {
    s.subrange(9, 26)
}

/// The captured display name: the characters between the last matching
/// `name: "` and the next double quote.
pub open spec fn spec_name_of(s: Seq<char>) -> Seq<char> {
    s.subrange(name_capture_start(s), spec_name_end(s))
}

/// Connected, unless the line carries the literal disconnection marker.
pub open spec fn spec_connected_of(s: Seq<char>) -> bool {
    !contains_pattern(s, "not connected"@)
}

proof fn lemma_name_start_unique(s: Seq<char>, i: int)
    requires
        is_name_start(s, i),
    ensures
        spec_name_start(s) == i,
{
    let c = spec_name_start(s);
    assert(is_name_start(s, c));
    if c < i {
        assert(!name_match_at(s, i));
    } else if i < c {
        assert(!name_match_at(s, c));
    }
}

proof fn lemma_quote_end_unique(s: Seq<char>, from: int, j: int)
    requires
        is_quote_end(s, from, j),
    ensures
        (choose|j2: int| is_quote_end(s, from, j2)) == j,
{
    let c = choose|j2: int| is_quote_end(s, from, j2);
    assert(is_quote_end(s, from, c));
    if c < j {
        assert(s[c] != '"');
    } else if j < c {
        assert(s[j] != '"');
    }
}

/// Parse one line of the external tool's output, if it has the fixed
/// record format; `None` otherwise, never a partial record.
#[verifier::loop_isolation(false)]
pub fn try_from_raw_str(data: &str) -> (r: Option<DeviceInfo>)
    ensures
        r is Some <==> line_matches(data@),
        r matches Some(d) ==> {
            &&& d.address@ == spec_address_of(data@)
            &&& d.name@ == spec_name_of(data@)
            &&& d.connected == spec_connected_of(data@)
        },
{
    let n = data.unicode_len();
    proof {
        reveal_strlit("address: ");
        reveal_strlit("name: \"");
    }
    let addr_marker = "address: ";
    let name_marker = "name: \"";
    if n < 34 {
        // Too short for the address part plus a name part behind it.
        proof {
            assert(forall|i: int| !name_match_at(data@, i));
        }
        return None;
    }
    if !pattern_matches_at(data, 0, addr_marker) {
        return None;
    }
    let mut k: usize = 9;
    while k < 26
        invariant
            9 <= k <= 26,
            n == data@.len(),
            n >= 34,
            forall|kk: int| 9 <= kk < k ==> is_id_char(#[trigger] data@[kk]),
        decreases 26 - k,
    {
        if !is_id_char_exec(data.get_char(k)) {
            return None;
        }
        k += 1;
    }
    if data.get_char(26) != ',' {
        return None;
    }
    assert(has_address_part(data@));
    // Scan downward for the last position where the name part matches.
    let mut i: usize = n - 7 + 1;
    while i > 27
        invariant
            27 <= i <= n - 7 + 1,
            n == data@.len(),
            n >= 34,
            has_address_part(data@),
            forall|i2: int| i <= i2 ==> !name_match_at(data@, i2),
        decreases i,
    {
        proof {
            reveal_strlit("name: \"");
        }
        i -= 1;
        if pattern_matches_at(data, i, name_marker) {
            let mut j: usize = i + 7;
            while j < n
                invariant
                    27 <= i,
                    i + 7 <= j <= n,
                    n == data@.len(),
                    has_address_part(data@),
                    pattern_at(data@, i as int, "name: \""@),
                    forall|i2: int| i < i2 ==> !name_match_at(data@, i2),
                    forall|jj: int| i + 7 <= jj < j ==> data@[jj] != '"',
                decreases n - j,
            {
                if data.get_char(j) == '"' {
                    proof {
                        reveal_strlit("name: \"");
                        assert(name_match_at(data@, i as int));
                        assert(is_name_start(data@, i as int));
                        lemma_name_start_unique(data@, i as int);
                        assert(is_quote_end(data@, i + 7, j as int));
                        lemma_quote_end_unique(data@, i + 7, j as int);
                    }
                    let address = data.substring_char(9, 26).to_owned();
                    let name = data.substring_char(i + 7, j).to_owned();
                    let connected = !str_contains_pattern(data, "not connected");
                    return Some(DeviceInfo { name, address, connected });
                }
                j += 1;
            }
            // The marker matched here, but no closing quote follows.
            assert(!name_match_at(data@, i as int));
        } else {
            assert(!name_match_at(data@, i as int));
        }
    }
    proof {
        assert(forall|i2: int| !name_match_at(data@, i2));
    }
    None
}

// ---------------------------------------------------------------------------
// Facts about Seq::filter used by the ordering proofs
// ---------------------------------------------------------------------------

proof fn lemma_filter_push<A>(s: Seq<A>, pred: spec_fn(A) -> bool, x: A)
    ensures
        s.push(x).filter(pred) == if pred(x) {
            s.filter(pred).push(x)
        } else {
            s.filter(pred)
        },
{
    reveal(Seq::filter);
    assert(s.push(x).drop_last() =~= s);
    assert(s.push(x).last() == x);
}

proof fn lemma_filter_all<A>(s: Seq<A>, pred: spec_fn(A) -> bool)
    requires
        forall|i: int| 0 <= i < s.len() ==> pred(#[trigger] s[i]),
    ensures
        s.filter(pred) == s,
    decreases s.len(),
{
    reveal(Seq::filter);
    if s.len() == 0 {
        assert(s.filter(pred) =~= s);
    } else {
        assert(forall|i: int|
            0 <= i < s.drop_last().len() ==> pred(#[trigger] s.drop_last()[i]));
        lemma_filter_all(s.drop_last(), pred);
        assert(pred(s.last()));
        assert(s.drop_last().push(s.last()) =~= s);
    }
}

proof fn lemma_filter_none<A>(s: Seq<A>, pred: spec_fn(A) -> bool)
    requires
        forall|i: int| 0 <= i < s.len() ==> !pred(#[trigger] s[i]),
    ensures
        s.filter(pred) == Seq::<A>::empty(),
    decreases s.len(),
{
    reveal(Seq::filter);
    if s.len() == 0 {
        assert(s.filter(pred) =~= Seq::<A>::empty());
    } else {
        assert(forall|i: int|
            0 <= i < s.drop_last().len() ==> !pred(#[trigger] s.drop_last()[i]));
        lemma_filter_none(s.drop_last(), pred);
        assert(!pred(s.last()));
    }
}

proof fn lemma_filter_in_original<A>(s: Seq<A>, pred: spec_fn(A) -> bool)
    ensures
        forall|i: int|
            0 <= i < s.filter(pred).len() ==> s.contains(#[trigger] s.filter(pred)[i]),
    decreases s.len(),
{
    reveal(Seq::filter);
    if s.len() == 0 {
    } else {
        lemma_filter_in_original(s.drop_last(), pred);
        let f = s.filter(pred);
        let df = s.drop_last().filter(pred);
        assert forall|i: int| 0 <= i < f.len() implies s.contains(f[i]) by {
            if i < df.len() {
                assert(f[i] == df[i]);
                assert(s.drop_last().contains(df[i]));
                let k = choose|k: int|
                    0 <= k < s.drop_last().len() && s.drop_last()[k] == df[i];
                assert(s[k] == f[i]);
            } else {
                assert(f[i] == s.last());
                assert(s[s.len() - 1] == s.last());
            }
        }
    }
}

proof fn lemma_filter_equiv<A>(s: Seq<A>, p: spec_fn(A) -> bool, q: spec_fn(A) -> bool)
    requires
        forall|i: int| 0 <= i < s.len() ==> p(#[trigger] s[i]) == q(s[i]),
    ensures
        s.filter(p) == s.filter(q),
    decreases s.len(),
{
    reveal(Seq::filter);
    if s.len() == 0 {
        assert(s.filter(p) =~= s.filter(q));
    } else {
        assert(forall|i: int|
            0 <= i < s.drop_last().len() ==> p(#[trigger] s.drop_last()[i]) == q(
                s.drop_last()[i],
            ));
        lemma_filter_equiv(s.drop_last(), p, q);
        assert(p(s.last()) == q(s.last()));
    }
}

// ---------------------------------------------------------------------------
// Filters and list options
// ---------------------------------------------------------------------------

/// The tagged filter choice: everything, a set of addresses, or a
/// name-substring pattern. Exactly one variant is active at a time.
#[derive(Debug, PartialEq)]
pub enum DeviceFilters {
    AllDevices,
    SpecificAddresses { addresses: Vec<String> },
    Regex { value: String },
}

/// A filter plus an optional previous-address hint; the hint biases the
/// ordering of the result and never filters.
pub struct DeviceListOptions {
    pub filters: DeviceFilters,
    pub previous_address: Option<String>,
}

impl DeviceListOptions {
    pub fn new(filters: DeviceFilters, previous_address: Option<String>) -> (r: Self)
        ensures
            r.filters == filters,
            r.previous_address == previous_address,
    {
        DeviceListOptions { filters, previous_address }
    }

    pub fn new_default_all_devices() -> (r: Self)
        ensures
            r.filters == DeviceFilters::AllDevices,
            r.previous_address is None,
    {
        DeviceListOptions { filters: DeviceFilters::AllDevices, previous_address: None }
    }
}

/// The device's address equals `addr`, compared case-insensitively.
pub open spec fn addr_matches(d: DeviceInfo, addr: Seq<char>) -> bool {
    lower_of(d.address@) == lower_of(addr)
}

/// Whether the filter keeps the record: address in the given set, or name
/// containing the given substring, both case-insensitively.
pub open spec fn spec_keeps(filters: DeviceFilters, d: DeviceInfo) -> bool {
    match filters {
        DeviceFilters::AllDevices => true,
        DeviceFilters::SpecificAddresses { addresses } => exists|k: int|
            0 <= k < addresses@.len() && addr_matches(d, #[trigger] addresses@[k]@),
        DeviceFilters::Regex { value } => contains_pattern(
            lower_of(d.name@),
            lower_of(value@),
        ),
    }
}

/// Step 2 of the listing pipeline: keep exactly the records the filter
/// accepts, in their original order; `AllDevices` is the identity.
pub open spec fn spec_filtered(devices: Seq<DeviceInfo>, filters: DeviceFilters) -> Seq<
    DeviceInfo,
> {
    if filters is AllDevices {
        devices
    } else {
        devices.filter(|d: DeviceInfo| spec_keeps(filters, d))
    }
}

/// Step 3 of the pipeline: connected records first, each group keeping its
/// relative order (a stable partition).
pub open spec fn spec_connected_first(s: Seq<DeviceInfo>) -> Seq<DeviceInfo> {
    s.filter(|d: DeviceInfo| d.connected) + s.filter(|d: DeviceInfo| !d.connected)
}

/// Step 4 of the pipeline: records matching the previous-address hint move
/// to the front, everything else keeps its relative order.
pub open spec fn spec_previous_first(s: Seq<DeviceInfo>, prev: Seq<char>) -> Seq<DeviceInfo> {
    s.filter(|d: DeviceInfo| addr_matches(d, prev)) + s.filter(
        |d: DeviceInfo| !addr_matches(d, prev),
    )
}

/// The whole listing pipeline applied to the raw device sequence.
pub open spec fn spec_device_list(devices: Seq<DeviceInfo>, options: DeviceListOptions) -> Seq<
    DeviceInfo,
> {
    let sorted = spec_connected_first(spec_filtered(devices, options.filters));
    match options.previous_address {
        Some(prev) => spec_previous_first(sorted, prev@),
        None => sorted,
    }
}

/// Whether the filter keeps the record.
#[verifier::loop_isolation(false)]
pub fn keeps_device(filters: &DeviceFilters, device: &DeviceInfo) -> (r: bool)
    ensures
        r == spec_keeps(*filters, *device),
{
    match filters {
        DeviceFilters::AllDevices => true,
        DeviceFilters::SpecificAddresses { addresses } => {
            let device_low = to_lower(device.address.as_str());
            let mut k: usize = 0;
            while k < addresses.len()
                invariant
                    0 <= k <= addresses@.len(),
                    device_low@ == lower_of(device.address@),
                    forall|kk: int|
                        0 <= kk < k ==> !addr_matches(*device, #[trigger] addresses@[kk]@),
                decreases addresses@.len() - k,
            {
                let a_low = to_lower(addresses[k].as_str());
                if device_low == a_low {
                    proof {
                        assert(addr_matches(*device, addresses@[k as int]@));
                    }
                    return true;
                }
                k += 1;
            }
            false
        },
        DeviceFilters::Regex { value } => {
            let name_low = to_lower(device.name.as_str());
            let value_low = to_lower(value.as_str());
            str_contains_pattern(name_low.as_str(), value_low.as_str())
        },
    }
}

/// Apply the filter: exactly the accepted records, original order kept.
#[verifier::loop_isolation(false)]
pub fn filter_device_list(devices: Vec<DeviceInfo>, filters: &DeviceFilters) -> (r: Vec<
    DeviceInfo,
>)
    ensures
        r@ == spec_filtered(devices@, *filters),
{
    match filters {
        DeviceFilters::AllDevices => devices,
        _ => {
            let mut out: Vec<DeviceInfo> = Vec::new();
            let mut idx: usize = 0;
            while idx < devices.len()
                invariant
                    0 <= idx <= devices@.len(),
                    out@ == devices@.subrange(0, idx as int).filter(
                        |d: DeviceInfo| spec_keeps(*filters, d),
                    ),
                decreases devices@.len() - idx,
            {
                let ghost pre = devices@.subrange(0, idx as int);
                if keeps_device(filters, &devices[idx]) {
                    out.push(devices[idx].clone());
                }
                proof {
                    lemma_filter_push(
                        pre,
                        |d: DeviceInfo| spec_keeps(*filters, d),
                        devices@[idx as int],
                    );
                    assert(devices@.subrange(0, idx + 1) =~= pre.push(devices@[idx as int]));
                }
                idx += 1;
            }
            proof {
                assert(devices@.subrange(0, devices@.len() as int) =~= devices@);
            }
            out
        },
    }
}

/// Stable partition: connected records first, both groups in their
/// original relative order.
#[verifier::loop_isolation(false)]
pub fn sort_connected_first(devices: Vec<DeviceInfo>) -> (r: Vec<DeviceInfo>)
    ensures
        r@ == spec_connected_first(devices@),
{
    let mut connected: Vec<DeviceInfo> = Vec::new();
    let mut disconnected: Vec<DeviceInfo> = Vec::new();
    let mut idx: usize = 0;
    while idx < devices.len()
        invariant
            0 <= idx <= devices@.len(),
            connected@ == devices@.subrange(0, idx as int).filter(|d: DeviceInfo| d.connected),
            disconnected@ == devices@.subrange(0, idx as int).filter(
                |d: DeviceInfo| !d.connected,
            ),
        decreases devices@.len() - idx,
    {
        let ghost pre = devices@.subrange(0, idx as int);
        if devices[idx].connected {
            connected.push(devices[idx].clone());
        } else {
            disconnected.push(devices[idx].clone());
        }
        proof {
            lemma_filter_push(pre, |d: DeviceInfo| d.connected, devices@[idx as int]);
            lemma_filter_push(pre, |d: DeviceInfo| !d.connected, devices@[idx as int]);
            assert(devices@.subrange(0, idx + 1) =~= pre.push(devices@[idx as int]));
        }
        idx += 1;
    }
    proof {
        assert(devices@.subrange(0, devices@.len() as int) =~= devices@);
    }
    connected.append(&mut disconnected);
    connected
}

/// Stable partition: records whose address matches the hint first,
/// everything else behind them in its old order.
#[verifier::loop_isolation(false)]
pub fn move_previous_to_front(devices: Vec<DeviceInfo>, previous_address: &str) -> (r: Vec<
    DeviceInfo,
>)
    ensures
        r@ == spec_previous_first(devices@, previous_address@),
{
    let prev_low = to_lower(previous_address);
    let mut matching: Vec<DeviceInfo> = Vec::new();
    let mut others: Vec<DeviceInfo> = Vec::new();
    let mut idx: usize = 0;
    while idx < devices.len()
        invariant
            0 <= idx <= devices@.len(),
            prev_low@ == lower_of(previous_address@),
            matching@ == devices@.subrange(0, idx as int).filter(
                |d: DeviceInfo| addr_matches(d, previous_address@),
            ),
            others@ == devices@.subrange(0, idx as int).filter(
                |d: DeviceInfo| !addr_matches(d, previous_address@),
            ),
        decreases devices@.len() - idx,
    {
        let ghost pre = devices@.subrange(0, idx as int);
        let el_low = to_lower(devices[idx].address.as_str());
        if el_low == prev_low {
            matching.push(devices[idx].clone());
        } else {
            others.push(devices[idx].clone());
        }
        proof {
            lemma_filter_push(
                pre,
                |d: DeviceInfo| addr_matches(d, previous_address@),
                devices@[idx as int],
            );
            lemma_filter_push(
                pre,
                |d: DeviceInfo| !addr_matches(d, previous_address@),
                devices@[idx as int],
            );
            assert(devices@.subrange(0, idx + 1) =~= pre.push(devices@[idx as int]));
        }
        idx += 1;
    }
    proof {
        assert(devices@.subrange(0, devices@.len() as int) =~= devices@);
    }
    matching.append(&mut others);
    matching
}

impl DeviceInfo {
    /// Parse one line of the external tool's output. The format is an
    /// environment invariant: a caller must know the line matches.
    pub fn from_raw_str(data: &str) -> (r: DeviceInfo)
        requires
            line_matches(data@),
        ensures
            r.address@ == spec_address_of(data@),
            r.name@ == spec_name_of(data@),
            r.connected == spec_connected_of(data@),
    {
        match try_from_raw_str(data) {
            Some(d) => d,
            None => vstd::pervasive::unreached(),
        }
    }
}

// ---------------------------------------------------------------------------
// Errors
// ---------------------------------------------------------------------------

/// A recoverable failure of a client operation, carrying a message.
#[derive(Debug)]
pub struct BluetoothClientError {
    pub details: String,
}

/// The message reported when no record matches a requested address.
pub open spec fn spec_not_found_message(addr: Seq<char>) -> Seq<char> {
    "Could not find device id : '"@ + addr + "'"@
}

fn build_not_found_message(address: &str) -> (r: String)
    ensures
        r@ == spec_not_found_message(address@),
{
    let mut m = "Could not find device id : '".to_owned();
    m.append(address);
    m.append("'");
    m
}

impl BluetoothClientError {
    pub fn new(msg: &str) -> (r: BluetoothClientError)
        ensures
            r.details@ == msg@,
    {
        BluetoothClientError { details: msg.to_owned() }
    }

    /// The human-readable message the error carries.
    pub fn description(&self) -> (r: &str)
        ensures
            r@ == self.details@,
    {
        self.details.as_str()
    }
}

// ---------------------------------------------------------------------------
// The gateway interface and the orchestrating client
// ---------------------------------------------------------------------------

/// The external device-control operations. Implementations invoke the
/// control process; nothing can be promised of what they return, so the
/// methods carry no contracts.
pub trait Client {
    fn connect_to_device(&self, address: &str) -> Result<(), BluetoothClientError>;

    fn disconnect_from_device(&self, address: &str) -> Result<(), BluetoothClientError>;

    fn get_device_list(&self) -> Vec<DeviceInfo>;
}

/// The records of `devices` whose address matches `addr`, connected ones
/// first: the candidates a single-device lookup chooses from.
pub open spec fn spec_lookup_candidates(devices: Seq<DeviceInfo>, addr: Seq<char>) -> Seq<
    DeviceInfo,
> {
    spec_connected_first(devices.filter(|d: DeviceInfo| addr_matches(d, addr)))
}

/// What a single-device lookup returns on the raw device sequence
/// `devices`: the first candidate, or nothing.
pub open spec fn spec_lookup(devices: Seq<DeviceInfo>, addr: Seq<char>) -> Option<DeviceInfo> {
    let c = spec_lookup_candidates(devices, addr);
    if c.len() == 0 {
        None
    } else {
        Some(c[0])
    }
}

/// Orchestrates the gateway: fetches the raw list, filters, orders, looks
/// up single devices and toggles their connection state.
pub struct BluetoothClient<C: Client> {
    pub blueutil_client: C,
}

impl<C: Client> BluetoothClient<C> {
    pub fn new(blueutil_client: C) -> (r: Self)
        ensures
            r.blueutil_client == blueutil_client,
    {
        BluetoothClient { blueutil_client }
    }

    pub fn connect_to_device(&self, address: &str) -> Result<(), BluetoothClientError> {
        self.blueutil_client.connect_to_device(address)
    }

    pub fn disconnect_from_device(&self, address: &str) -> Result<(), BluetoothClientError> {
        self.blueutil_client.disconnect_from_device(address)
    }

    /// Filter a fetched list; kept records stay in their original order.
    pub fn get_filtered_devices(&self, devices: Vec<DeviceInfo>, filters: DeviceFilters) -> (r:
        Vec<DeviceInfo>)
        ensures
            r@ == spec_filtered(devices@, filters),
    {
        filter_device_list(devices, &filters)
    }

    /// Fetch the raw list from the gateway and run the listing pipeline
    /// over it: filter, connected first, then the previous-address hint.
    pub fn get_device_list(&self, options: DeviceListOptions) -> (r: Vec<DeviceInfo>)
        ensures
            exists|raw: Seq<DeviceInfo>| r@ == spec_device_list(raw, options),
            forall|i: int|
                0 <= i < r@.len() ==> spec_keeps(options.filters, #[trigger] r@[i]),
    {
        let devices = self.blueutil_client.get_device_list();
        let ghost raw = devices@;
        proof {
            lemma_device_list_elements_keep(raw, options);
        }
        let devices = filter_device_list(devices, &options.filters);
        let devices = sort_connected_first(devices);
        match &options.previous_address {
            Some(prev) => {
                let r = move_previous_to_front(devices, prev.as_str());
                proof {
                    assert(r@ == spec_device_list(raw, options));
                }
                r
            },
            None => {
                proof {
                    assert(devices@ == spec_device_list(raw, options));
                }
                devices
            },
        }
    }

    /// Look one device up by address (case-insensitive). Succeeds exactly
    /// when the fetched list holds a matching record, and then returns the
    /// first candidate.
    pub fn get_device_info(&self, address: &str) -> (r: Result<DeviceInfo, BluetoothClientError>)
        ensures
            exists|raw: Seq<DeviceInfo>|
                match r {
                    Ok(d) => spec_lookup(raw, address@) == Some(d),
                    Err(_) => spec_lookup(raw, address@) is None,
                },
            r matches Ok(d) ==> addr_matches(d, address@),
            r matches Err(e) ==> e.details@ == spec_not_found_message(address@),
    {
        let mut addresses: Vec<String> = Vec::new();
        addresses.push(address.to_owned());
        let options = DeviceListOptions::new(
            DeviceFilters::SpecificAddresses { addresses },
            None,
        );
        let ghost opt = options;
        let mut list = self.get_device_list(options);
        let ghost raw = choose|raw: Seq<DeviceInfo>| list@ == spec_device_list(raw, opt);
        let ghost am = |d: DeviceInfo| addr_matches(d, address@);
        proof {
            let keeps = |d: DeviceInfo| spec_keeps(opt.filters, d);
            assert forall|i: int| 0 <= i < raw.len() implies keeps(#[trigger] raw[i]) == am(
                raw[i],
            ) by {
                let d = raw[i];
                match opt.filters {
                    DeviceFilters::SpecificAddresses { addresses: av } => {
                        if keeps(d) {
                            let k = choose|k: int|
                                0 <= k < av@.len() && addr_matches(d, #[trigger] av@[k]@);
                            assert(k == 0);
                            assert(am(d));
                        }
                        if am(d) {
                            assert(addr_matches(d, av@[0]@));
                            assert(keeps(d));
                        }
                    },
                    _ => {},
                }
            }
            lemma_filter_equiv(raw, keeps, am);
            assert(list@ == spec_lookup_candidates(raw, address@));
        }
        if list.len() == 0 {
            proof {
                assert(spec_lookup(raw, address@) is None);
            }
            Err(BluetoothClientError::new(build_not_found_message(address).as_str()))
        } else {
            let d = list.remove(0);
            proof {
                assert(spec_lookup(raw, address@) == Some(d));
                let matching = raw.filter(am);
                let con = matching.filter(|x: DeviceInfo| x.connected);
                let dis = matching.filter(|x: DeviceInfo| !x.connected);
                lemma_filter_in_original(matching, |x: DeviceInfo| x.connected);
                lemma_filter_in_original(matching, |x: DeviceInfo| !x.connected);
                if con.len() > 0 {
                    assert(d == con[0]);
                    assert(matching.contains(con[0]));
                    let k = choose|k: int| 0 <= k < matching.len() && matching[k] == con[0];
                    assert(am(matching[k]));
                } else {
                    assert(d == dis[0]);
                    assert(matching.contains(dis[0]));
                    let k = choose|k: int| 0 <= k < matching.len() && matching[k] == dis[0];
                    assert(am(matching[k]));
                }
                assert(addr_matches(d, address@));
            }
            Ok(d)
        }
    }

    /// Whether the device with the given address is currently connected.
    pub fn is_device_connected(&self, address: &str) -> (r: Result<bool, BluetoothClientError>)
        ensures
            exists|raw: Seq<DeviceInfo>|
                match r {
                    Ok(b) => spec_lookup(raw, address@) matches Some(d) && b == d.connected,
                    Err(_) => spec_lookup(raw, address@) is None,
                },
            r matches Err(e) ==> e.details@ == spec_not_found_message(address@),
    {
        match self.get_device_info(address) {
            Ok(d) => Ok(d.connected),
            Err(e) => Err(e),
        }
    }

    /// Read the device's current state and invoke the opposite action.
    /// The returned flag reports the new "now connected" state: the
    /// negation of the state that was read.
    pub fn toggle_connected_status(&self, address: &str) -> (r: Result<
        bool,
        BluetoothClientError,
    >)
        ensures
            r matches Ok(b) ==> exists|raw: Seq<DeviceInfo>|
                #[trigger] spec_lookup(raw, address@) matches Some(d) && b == !d.connected,
    {
        let device = match self.get_device_info(address) {
            Ok(d) => d,
            Err(e) => return Err(e),
        };
        if device.connected {
            match self.disconnect_from_device(address) {
                Ok(_) => Ok(false),
                Err(e) => Err(e),
            }
        } else {
            match self.connect_to_device(address) {
                Ok(_) => Ok(true),
                Err(e) => Err(e),
            }
        }
    }
}

// ---------------------------------------------------------------------------
// Laws of the listing pipeline
// ---------------------------------------------------------------------------

proof fn lemma_spec_filtered_exact(devices: Seq<DeviceInfo>, filters: DeviceFilters)
    ensures
        ({
            let r = spec_filtered(devices, filters);
            &&& (forall|i: int| 0 <= i < r.len() ==> spec_keeps(filters, #[trigger] r[i]))
            &&& (forall|i: int| 0 <= i < r.len() ==> devices.contains(#[trigger] r[i]))
            &&& (forall|i: int|
                0 <= i < devices.len() && spec_keeps(filters, #[trigger] devices[i])
                    ==> r.contains(devices[i]))
        }),
{
    let r = spec_filtered(devices, filters);
    if filters is AllDevices {
        assert forall|i: int| 0 <= i < r.len() implies devices.contains(#[trigger] r[i]) by {
            assert(devices[i] == r[i]);
        }
        assert forall|i: int|
            0 <= i < devices.len() && spec_keeps(filters, #[trigger] devices[i]) implies r.contains(
            devices[i],
        ) by {
            assert(r[i] == devices[i]);
        }
    } else {
        let keep = |d: DeviceInfo| spec_keeps(filters, d);
        lemma_filter_in_original(devices, keep);
        assert forall|i: int| 0 <= i < r.len() implies spec_keeps(filters, #[trigger] r[i]) by {
            assert(keep(r[i]));
        }
        assert forall|i: int|
            0 <= i < devices.len() && spec_keeps(filters, #[trigger] devices[i]) implies r.contains(
            devices[i],
        ) by {
            assert(keep(devices[i]));
        }
    }
}

/// Every record of a listing pipeline result satisfies the filter it was
/// produced with: the ordering steps only rearrange the filtered records.
pub proof fn lemma_device_list_elements_keep(raw: Seq<DeviceInfo>, options: DeviceListOptions)
    ensures
        forall|i: int|
            0 <= i < spec_device_list(raw, options).len() ==> spec_keeps(
                options.filters,
                #[trigger] spec_device_list(raw, options)[i],
            ),
{
    let f = spec_filtered(raw, options.filters);
    let r = spec_device_list(raw, options);
    lemma_spec_filtered_exact(raw, options.filters);
    let conn = |d: DeviceInfo| d.connected;
    let nconn = |d: DeviceInfo| !d.connected;
    let sorted = spec_connected_first(f);
    lemma_filter_in_original(f, conn);
    lemma_filter_in_original(f, nconn);
    assert forall|i: int|
        0 <= i < sorted.len() implies spec_keeps(options.filters, #[trigger] sorted[i]) by {
        let a = f.filter(conn);
        if i < a.len() {
            assert(sorted[i] == a[i]);
            assert(f.contains(a[i]));
        } else {
            assert(sorted[i] == f.filter(nconn)[i - a.len()]);
            assert(f.contains(f.filter(nconn)[i - a.len()]));
        }
        let k = choose|k: int| 0 <= k < f.len() && f[k] == sorted[i];
        assert(spec_keeps(options.filters, f[k]));
    }
    match options.previous_address {
        Some(prev) => {
            let m = |d: DeviceInfo| addr_matches(d, prev@);
            let nm = |d: DeviceInfo| !addr_matches(d, prev@);
            lemma_filter_in_original(sorted, m);
            lemma_filter_in_original(sorted, nm);
            assert forall|i: int|
                0 <= i < r.len() implies spec_keeps(options.filters, #[trigger] r[i]) by {
                let a = sorted.filter(m);
                if i < a.len() {
                    assert(r[i] == a[i]);
                    assert(sorted.contains(a[i]));
                } else {
                    assert(r[i] == sorted.filter(nm)[i - a.len()]);
                    assert(sorted.contains(sorted.filter(nm)[i - a.len()]));
                }
                let k = choose|k: int| 0 <= k < sorted.len() && sorted[k] == r[i];
                assert(spec_keeps(options.filters, sorted[k]));
            }
        },
        None => {},
    }
}

/// Law: filtering with `AllDevices` returns the input unchanged, in both
/// content and order.
pub proof fn lemma_filter_all_devices_identity(devices: Seq<DeviceInfo>)
    ensures
        spec_filtered(devices, DeviceFilters::AllDevices) == devices,
{
}

/// Law: filtering by an address set keeps exactly the records whose
/// address case-insensitively matches one of the given addresses, and it
/// keeps them in their original relative order.
pub proof fn lemma_filter_by_addresses(devices: Seq<DeviceInfo>, addresses: Vec<String>)
    ensures
        ({
            let filters = DeviceFilters::SpecificAddresses { addresses };
            let r = spec_filtered(devices, filters);
            &&& r == devices.filter(|d: DeviceInfo| spec_keeps(filters, d))
            &&& (forall|i: int|
                0 <= i < r.len() ==> devices.contains(#[trigger] r[i]) && spec_keeps(
                    filters,
                    r[i],
                ))
            &&& (forall|i: int|
                0 <= i < devices.len() && spec_keeps(filters, #[trigger] devices[i])
                    ==> r.contains(devices[i]))
        }),
{
    lemma_spec_filtered_exact(devices, DeviceFilters::SpecificAddresses { addresses });
}

/// Law: filtering by a name pattern keeps exactly the records whose name
/// case-insensitively contains the given substring, and it keeps them in
/// their original relative order.
pub proof fn lemma_filter_by_name_pattern(devices: Seq<DeviceInfo>, value: String)
    ensures
        ({
            let filters = DeviceFilters::Regex { value };
            let r = spec_filtered(devices, filters);
            &&& r == devices.filter(|d: DeviceInfo| spec_keeps(filters, d))
            &&& (forall|i: int|
                0 <= i < r.len() ==> devices.contains(#[trigger] r[i]) && contains_pattern(
                    lower_of(r[i].name@),
                    lower_of(value@),
                ))
            &&& (forall|i: int|
                0 <= i < devices.len() && contains_pattern(
                    lower_of(#[trigger] devices[i].name@),
                    lower_of(value@),
                ) ==> r.contains(devices[i]))
        }),
{
    lemma_spec_filtered_exact(devices, DeviceFilters::Regex { value });
}

/// Law: with no previous-address hint, every connected record of the
/// listing result precedes every disconnected one, and within each group
/// the records keep the relative order they had after filtering.
pub proof fn lemma_list_connected_first(devices: Seq<DeviceInfo>, options: DeviceListOptions)
    requires
        options.previous_address is None,
    ensures
        ({
            let f = spec_filtered(devices, options.filters);
            let r = spec_device_list(devices, options);
            &&& (forall|i: int, j: int|
                0 <= i < j < r.len() && (#[trigger] r[j]).connected
                    ==> (#[trigger] r[i]).connected)
            &&& r.filter(|d: DeviceInfo| d.connected) == f.filter(|d: DeviceInfo| d.connected)
            &&& r.filter(|d: DeviceInfo| !d.connected) == f.filter(|d: DeviceInfo| !d.connected)
        }),
{
    let f = spec_filtered(devices, options.filters);
    let r = spec_device_list(devices, options);
    let conn = |d: DeviceInfo| d.connected;
    let nconn = |d: DeviceInfo| !d.connected;
    let a = f.filter(conn);
    let b = f.filter(nconn);
    assert(r == a + b);
    assert forall|i: int, j: int|
        0 <= i < j < r.len() && (#[trigger] r[j]).connected implies (#[trigger] r[i]).connected by {
        if j >= a.len() {
            assert(r[j] == b[j - a.len()]);
            assert(nconn(b[j - a.len()]));
        }
        assert(j < a.len());
        assert(r[i] == a[i]);
        assert(conn(a[i]));
    }
    Seq::filter_distributes_over_add(a, b, conn);
    Seq::filter_distributes_over_add(a, b, nconn);
    assert(forall|i: int| 0 <= i < a.len() ==> conn(#[trigger] a[i]));
    assert(forall|i: int| 0 <= i < b.len() ==> nconn(#[trigger] b[i]));
    assert(forall|i: int| 0 <= i < b.len() ==> !conn(#[trigger] b[i]));
    assert(forall|i: int| 0 <= i < a.len() ==> !nconn(#[trigger] a[i]));
    lemma_filter_all(a, conn);
    lemma_filter_none(b, conn);
    lemma_filter_all(b, nconn);
    lemma_filter_none(a, nconn);
    assert(r.filter(conn) =~= a);
    assert(r.filter(nconn) =~= b);
}

/// Law: with a previous-address hint, a record matching the hint stands
/// first in the result whenever one exists, and the records keep, within
/// the matching and the non-matching group, the relative order they had
/// after the connected-first step.
pub proof fn lemma_list_previous_first(
    devices: Seq<DeviceInfo>,
    options: DeviceListOptions,
    prev: String,
)
    requires
        options.previous_address == Some(prev),
    ensures
        ({
            let sorted = spec_connected_first(spec_filtered(devices, options.filters));
            let r = spec_device_list(devices, options);
            &&& ((exists|i: int|
                0 <= i < sorted.len() && addr_matches(#[trigger] sorted[i], prev@)) ==> (
            r.len() > 0 && addr_matches(r[0], prev@)))
            &&& r.filter(|d: DeviceInfo| addr_matches(d, prev@)) == sorted.filter(
                (|d: DeviceInfo| addr_matches(d, prev@)),
            )
            &&& r.filter(|d: DeviceInfo| !addr_matches(d, prev@)) == sorted.filter(
                (|d: DeviceInfo| !addr_matches(d, prev@)),
            )
        }),
{
    let sorted = spec_connected_first(spec_filtered(devices, options.filters));
    let r = spec_device_list(devices, options);
    let m = |d: DeviceInfo| addr_matches(d, prev@);
    let nm = |d: DeviceInfo| !addr_matches(d, prev@);
    let a = sorted.filter(m);
    let b = sorted.filter(nm);
    assert(r == a + b);
    if exists|i: int| 0 <= i < sorted.len() && addr_matches(#[trigger] sorted[i], prev@) {
        let i = choose|i: int| 0 <= i < sorted.len() && addr_matches(#[trigger] sorted[i], prev@);
        assert(m(sorted[i]));
        assert(a.contains(sorted[i]));
        assert(a.len() > 0);
        assert(r[0] == a[0]);
        assert(m(a[0]));
    }
    Seq::filter_distributes_over_add(a, b, m);
    Seq::filter_distributes_over_add(a, b, nm);
    assert(forall|i: int| 0 <= i < a.len() ==> m(#[trigger] a[i]));
    assert(forall|i: int| 0 <= i < b.len() ==> nm(#[trigger] b[i]));
    assert(forall|i: int| 0 <= i < b.len() ==> !m(#[trigger] b[i]));
    assert(forall|i: int| 0 <= i < a.len() ==> !nm(#[trigger] a[i]));
    lemma_filter_all(a, m);
    lemma_filter_none(b, m);
    lemma_filter_all(b, nm);
    lemma_filter_none(a, nm);
    assert(r.filter(m) =~= a);
    assert(r.filter(nm) =~= b);
}

/// Law: a single-device lookup comes back empty exactly when no record's
/// address matches case-insensitively; when it succeeds, the returned
/// record is one of the raw records and its address matches.
pub proof fn lemma_lookup_found_iff_present(devices: Seq<DeviceInfo>, addr: Seq<char>)
    ensures
        (spec_lookup(devices, addr) is None) <==> (forall|i: int|
            0 <= i < devices.len() ==> !addr_matches(#[trigger] devices[i], addr)),
        spec_lookup(devices, addr) matches Some(d) ==> devices.contains(d) && addr_matches(
            d,
            addr,
        ),
{
    let am = |d: DeviceInfo| addr_matches(d, addr);
    let conn = |d: DeviceInfo| d.connected;
    let nconn = |d: DeviceInfo| !d.connected;
    let x = devices.filter(am);
    let a = x.filter(conn);
    let b = x.filter(nconn);
    let c = spec_lookup_candidates(devices, addr);
    assert(c == a + b);
    if spec_lookup(devices, addr) is None {
        assert forall|i: int|
            0 <= i < devices.len() implies !addr_matches(#[trigger] devices[i], addr) by {
            if am(devices[i]) {
                assert(x.contains(devices[i]));
                assert(x.len() > 0);
                if conn(x[0]) {
                    assert(a.contains(x[0]));
                } else {
                    assert(nconn(x[0]));
                    assert(b.contains(x[0]));
                }
            }
        }
    }
    if forall|i: int| 0 <= i < devices.len() ==> !addr_matches(#[trigger] devices[i], addr) {
        assert(forall|i: int| 0 <= i < devices.len() ==> !am(#[trigger] devices[i]));
        lemma_filter_none(devices, am);
        assert(x =~= Seq::<DeviceInfo>::empty());
        assert(c.len() == 0);
    }
    if c.len() > 0 {
        lemma_filter_in_original(x, conn);
        lemma_filter_in_original(x, nconn);
        lemma_filter_in_original(devices, am);
        if a.len() > 0 {
            assert(c[0] == a[0]);
            assert(x.contains(a[0]));
            let k = choose|k: int| 0 <= k < x.len() && x[k] == a[0];
            assert(am(x[k]));
            assert(devices.contains(x[k]));
        } else {
            assert(c[0] == b[0]);
            assert(x.contains(b[0]));
            let k = choose|k: int| 0 <= k < x.len() && x[k] == b[0];
            assert(am(x[k]));
            assert(devices.contains(x[k]));
        }
    }
}

} // verus!
