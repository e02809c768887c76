//! Parsing ARP-utility output into device records, keeping the
//! private-range addresses, and ordering them by numeric address.

use vstd::prelude::*;

use crate::ip::{ip_key, is_private_ip, spec_ip_key, spec_is_private_ip};
use crate::text::{
    contains_char, replace_char, replace_char_exec, spec_split, spec_tokens, split_char,
    split_whitespace_tokens, strip_edges, strip_leading, strip_trailing,
};

verus! {

/// A device found in the ARP cache: its IPv4 address and, when the cache
/// held one, its hardware address.
#[derive(Debug, Clone, PartialEq, Eq)]
pub struct NetworkDevice {
    pub ip: String,
    pub mac: Option<String>,
}

/// The mathematical value of a [`NetworkDevice`].
pub struct DeviceView {
    pub ip: Seq<char>,
    pub mac: Option<Seq<char>>,
}

/// The view of an optional string.
pub open spec fn opt_view(o: Option<String>) -> Option<Seq<char>> {
    match o {
        Some(s) => Some(s@),
        None => None,
    }
}

impl View for NetworkDevice {
    type V = DeviceView;

    open spec fn view(&self) -> DeviceView {
        DeviceView { ip: self.ip@, mac: opt_view(self.mac) }
    }
}

/// The views of a vector of devices.
pub open spec fn device_views(s: Seq<NetworkDevice>) -> Seq<DeviceView> {
    s.map_values(|d: NetworkDevice| d@)
}

/// The two line shapes the ARP utility emits.
#[derive(Clone, Copy, Debug)]
pub enum Platform {
    Unix,
    Windows,
}

/// What a Unix-style ARP line yields: with at least four tokens, the
/// address is token 1 with enclosing parentheses stripped, and token 3 is
/// the hardware address unless it is the literal `(incomplete)` or has no
/// colon; with fewer tokens the line yields nothing.
pub open spec fn spec_parse_unix(line: Seq<char>) -> (Option<Seq<char>>, Option<Seq<char>>) {
    let ts = spec_tokens(line);
    if ts.len() >= 4 {
        let ip = strip_trailing(strip_leading(ts[1], '('), ')');
        if ts[3] != "(incomplete)"@ && ts[3].contains(':') {
            (Some(ip), Some(ts[3]))
        } else {
            (Some(ip), None)
        }
    } else {
        (None, None)
    }
}

/// What a Windows-style ARP line yields: with at least two tokens and a
/// `.` in token 0, the address is token 0, and token 1 is the hardware
/// address, hyphens rewritten to colons, if it contains a hyphen;
/// otherwise the line yields nothing.
pub open spec fn spec_parse_windows(line: Seq<char>) -> (Option<Seq<char>>, Option<Seq<char>>) {
    let ts = spec_tokens(line);
    if ts.len() >= 2 && ts[0].contains('.') {
        if ts[1].contains('-') {
            (Some(ts[0]), Some(replace_char(ts[1], '-', ':')))
        } else {
            (Some(ts[0]), None)
        }
    } else {
        (None, None)
    }
}

/// Parses one Unix-style ARP line into an address and an optional
/// hardware address, exactly [`spec_parse_unix`].
pub fn parse_unix_arp_line(line: &str) -> (r: (Option<String>, Option<String>))
    ensures
        opt_view(r.0) == spec_parse_unix(line@).0,
        opt_view(r.1) == spec_parse_unix(line@).1,
        spec_tokens(line@).len() >= 4 ==> opt_view(r.0) == Some(
            strip_trailing(strip_leading(spec_tokens(line@)[1], '('), ')'),
        ),
        (spec_tokens(line@).len() >= 4 && spec_tokens(line@)[3] != "(incomplete)"@ && spec_tokens(
            line@,
        )[3].contains(':')) ==> opt_view(r.1) == Some(spec_tokens(line@)[3]),
        (spec_tokens(line@).len() >= 4 && !(spec_tokens(line@)[3] != "(incomplete)"@ && spec_tokens(
            line@,
        )[3].contains(':'))) ==> r.1 is None,
        spec_tokens(line@).len() < 4 ==> r.0 is None && r.1 is None,
{
    let tokens = split_whitespace_tokens(line);
    if tokens.len() >= 4 {
        let ip = strip_edges(tokens[1].as_str(), '(', ')');
        let incomplete = String::from_str("(incomplete)");
        if !(tokens[3] == incomplete) && contains_char(tokens[3].as_str(), ':') {
            let mac = tokens[3].clone();
            (Some(ip), Some(mac))
        } else {
            (Some(ip), None)
        }
    } else {
        (None, None)
    }
}

/// Parses one Windows-style ARP line into an address and an optional
/// hardware address, exactly [`spec_parse_windows`].
pub fn parse_windows_arp_line(line: &str) -> (r: (Option<String>, Option<String>))
    ensures
        opt_view(r.0) == spec_parse_windows(line@).0,
        opt_view(r.1) == spec_parse_windows(line@).1,
        (spec_tokens(line@).len() >= 2 && spec_tokens(line@)[0].contains('.')) ==> opt_view(r.0)
            == Some(spec_tokens(line@)[0]),
        (spec_tokens(line@).len() >= 2 && spec_tokens(line@)[0].contains('.') && spec_tokens(
            line@,
        )[1].contains('-')) ==> opt_view(r.1) == Some(replace_char(spec_tokens(line@)[1], '-', ':')),
        (spec_tokens(line@).len() >= 2 && spec_tokens(line@)[0].contains('.') && !spec_tokens(
            line@,
        )[1].contains('-')) ==> r.1 is None,
        !(spec_tokens(line@).len() >= 2 && spec_tokens(line@)[0].contains('.')) ==> r.0 is None
            && r.1 is None,
{
    let tokens = split_whitespace_tokens(line);
    if tokens.len() >= 2 && contains_char(tokens[0].as_str(), '.') {
        let ip = tokens[0].clone();
        if contains_char(tokens[1].as_str(), '-') {
            proof {
                reveal_strlit(":");
            }
            let mac = replace_char_exec(tokens[1].as_str(), '-', ":");
            (Some(ip), Some(mac))
        } else {
            (Some(ip), None)
        }
    } else {
        (None, None)
    }
}

/// What one line yields under the given line shape.
pub open spec fn spec_parse_line(line: Seq<char>, platform: Platform) -> (
    Option<Seq<char>>,
    Option<Seq<char>>,
) {
    match platform {
        Platform::Unix => spec_parse_unix(line),
        Platform::Windows => spec_parse_windows(line),
    }
}

/// Parses one ARP line under the given line shape, exactly
/// [`spec_parse_line`].
pub fn parse_arp_line(line: &str, platform: Platform) -> (r: (Option<String>, Option<String>))
    ensures
        opt_view(r.0) == spec_parse_line(line@, platform).0,
        opt_view(r.1) == spec_parse_line(line@, platform).1,
{
    match platform {
        Platform::Unix => parse_unix_arp_line(line),
        Platform::Windows => parse_windows_arp_line(line),
    }
}

/// The record one line contributes: its parsed address when that address
/// is private-range, together with the parsed hardware address; nothing
/// otherwise.
pub open spec fn spec_line_device(line: Seq<char>, platform: Platform) -> Option<DeviceView> {
    let r = spec_parse_line(line, platform);
    match r.0 {
        Some(ip) => if spec_is_private_ip(ip) {
            Some(DeviceView { ip: ip, mac: r.1 })
        } else {
            None
        },
        None => None,
    }
}

/// The records of all lines, in line order, lines that yield nothing
/// skipped.
pub open spec fn spec_collect(lines: Seq<Seq<char>>, platform: Platform) -> Seq<DeviceView>
    decreases lines.len(),
{
    if lines.len() == 0 {
        Seq::empty()
    } else {
        match spec_line_device(lines[0], platform) {
            Some(d) => seq![d] + spec_collect(lines.skip(1), platform),
            None => spec_collect(lines.skip(1), platform),
        }
    }
}

/// The ordering key of a device: its address's numeric value.
pub open spec fn dev_key(d: DeviceView) -> int {
    spec_ip_key(d.ip)
}

/// `d` placed after every element of `s` whose key is at most `d`'s: a
/// stable sorted insertion.
pub open spec fn spec_insert_sorted(d: DeviceView, s: Seq<DeviceView>) -> Seq<DeviceView>
    decreases s.len(),
{
    if s.len() == 0 {
        seq![d]
    } else if dev_key(s[0]) <= dev_key(d) {
        seq![s[0]] + spec_insert_sorted(d, s.skip(1))
    } else {
        seq![d] + s
    }
}

/// `s` stably sorted by ascending address key.
pub open spec fn spec_sort(s: Seq<DeviceView>) -> Seq<DeviceView>
    decreases s.len(),
{
    if s.len() == 0 {
        Seq::empty()
    } else {
        spec_insert_sorted(s.last(), spec_sort(s.drop_last()))
    }
}

/// Ascending address keys throughout.
pub open spec fn sorted_by_ip(s: Seq<DeviceView>) -> bool {
    forall|i: int, j: int| 0 <= i < j < s.len() ==> dev_key(s[i]) <= dev_key(s[j])
}

/// Everything a scan of this text yields: each line's record, the
/// non-private and unparsable addresses dropped, sorted by ascending
/// numeric address.
pub open spec fn spec_scan(output: Seq<char>, platform: Platform) -> Seq<DeviceView> {
    spec_sort(spec_collect(spec_split(output, '\n'), platform))
}

/// A sorted insertion lands exactly at the first index whose key exceeds
/// the inserted key.
proof fn lemma_insert_sorted_at(d: DeviceView, s: Seq<DeviceView>, j: int)
    requires
        0 <= j <= s.len(),
        forall|m: int| 0 <= m < j ==> dev_key(s[m]) <= dev_key(d),
        j == s.len() || dev_key(s[j]) > dev_key(d),
    ensures
        spec_insert_sorted(d, s) == s.take(j) + seq![d] + s.skip(j),
    decreases j,
{
    if j == 0 {
        if s.len() == 0 {
            assert(spec_insert_sorted(d, s) =~= s.take(0) + seq![d] + s.skip(0));
        } else {
            assert(seq![d] + s =~= s.take(0) + seq![d] + s.skip(0));
        }
    } else {
        lemma_insert_sorted_at(d, s.skip(1), j - 1);
        assert(seq![s[0]] + (s.skip(1).take(j - 1) + seq![d] + s.skip(1).skip(j - 1)) =~= s.take(j)
            + seq![d] + s.skip(j));
    }
}

/// Every element of a sorted insertion is the inserted device or one of
/// the original elements.
proof fn lemma_insert_sorted_elems(d: DeviceView, s: Seq<DeviceView>, i: int)
    requires
        0 <= i < spec_insert_sorted(d, s).len(),
    ensures
        spec_insert_sorted(d, s)[i] == d || s.contains(spec_insert_sorted(d, s)[i]),
    decreases s.len(),
{
    if s.len() == 0 {
    } else if dev_key(s[0]) <= dev_key(d) {
        if i == 0 {
            assert(s[0] == s[0]);
        } else {
            lemma_insert_sorted_elems(d, s.skip(1), i - 1);
            let x = spec_insert_sorted(d, s)[i];
            if x != d {
                let k = choose|k: int| 0 <= k < s.skip(1).len() && s.skip(1)[k] == x;
                assert(s[k + 1] == x);
            }
        }
    } else {
        if i > 0 {
            assert(s[i - 1] == spec_insert_sorted(d, s)[i]);
        }
    }
}

/// A sorted insertion keeps the sequence sorted.
proof fn lemma_insert_sorted_preserves(d: DeviceView, s: Seq<DeviceView>)
    requires
        sorted_by_ip(s),
    ensures
        sorted_by_ip(spec_insert_sorted(d, s)),
    decreases s.len(),
{
    let r = spec_insert_sorted(d, s);
    if s.len() == 0 {
    } else if dev_key(s[0]) <= dev_key(d) {
        let tail = s.skip(1);
        assert(sorted_by_ip(tail));
        lemma_insert_sorted_preserves(d, tail);
        let rr = spec_insert_sorted(d, tail);
        assert forall|i: int, j: int| 0 <= i < j < r.len() implies dev_key(r[i]) <= dev_key(
            r[j],
        ) by {
            if i == 0 {
                lemma_insert_sorted_elems(d, tail, j - 1);
                let x = rr[j - 1];
                if x == d {
                } else {
                    let k = choose|k: int| 0 <= k < tail.len() && tail[k] == x;
                    assert(dev_key(s[0]) <= dev_key(s[k + 1]));
                }
            } else {
                assert(r[i] == rr[i - 1] && r[j] == rr[j - 1]);
            }
        }
    } else {
        assert forall|i: int, j: int| 0 <= i < j < r.len() implies dev_key(r[i]) <= dev_key(
            r[j],
        ) by {
            if i == 0 {
                assert(r[j] == s[j - 1]);
                if j > 1 {
                    assert(dev_key(s[0]) <= dev_key(s[j - 1]));
                }
            } else {
                assert(r[i] == s[i - 1] && r[j] == s[j - 1]);
            }
        }
    }
}

/// Sorting sorts.
proof fn lemma_sort_sorted(s: Seq<DeviceView>)
    ensures
        sorted_by_ip(spec_sort(s)),
    decreases s.len(),
{
    if s.len() > 0 {
        lemma_sort_sorted(s.drop_last());
        lemma_insert_sorted_preserves(s.last(), spec_sort(s.drop_last()));
    }
}

/// A property of every element survives a sorted insertion.
proof fn lemma_insert_sorted_all(d: DeviceView, s: Seq<DeviceView>, pred: spec_fn(DeviceView) -> bool)
    requires
        pred(d),
        forall|i: int| 0 <= i < s.len() ==> pred(#[trigger] s[i]),
    ensures
        forall|i: int|
            0 <= i < spec_insert_sorted(d, s).len() ==> pred(#[trigger] spec_insert_sorted(d, s)[i]),
{
    assert forall|i: int| 0 <= i < spec_insert_sorted(d, s).len() implies pred(
        spec_insert_sorted(d, s)[i],
    ) by {
        lemma_insert_sorted_elems(d, s, i);
        let x = spec_insert_sorted(d, s)[i];
        if x != d {
            let k = choose|k: int| 0 <= k < s.len() && s[k] == x;
            assert(pred(s[k]));
        }
    }
}

/// A property of every element survives sorting.
proof fn lemma_sort_all(s: Seq<DeviceView>, pred: spec_fn(DeviceView) -> bool)
    requires
        forall|i: int| 0 <= i < s.len() ==> pred(#[trigger] s[i]),
    ensures
        forall|i: int| 0 <= i < spec_sort(s).len() ==> pred(#[trigger] spec_sort(s)[i]),
    decreases s.len(),
{
    if s.len() > 0 {
        let front = s.drop_last();
        assert(forall|i: int| 0 <= i < front.len() ==> pred(#[trigger] front[i]));
        lemma_sort_all(front, pred);
        lemma_insert_sorted_all(s.last(), spec_sort(front), pred);
    }
}

/// Every collected record has a private-range address.
proof fn lemma_collect_private(lines: Seq<Seq<char>>, platform: Platform)
    ensures
        forall|i: int|
            0 <= i < spec_collect(lines, platform).len() ==> spec_is_private_ip(
                #[trigger] spec_collect(lines, platform)[i].ip,
            ),
    decreases lines.len(),
{
    if lines.len() > 0 {
        lemma_collect_private(lines.skip(1), platform);
    }
}

/// Every device a scan yields has a private-range address — one that in
/// particular parses as a dotted quad. No public or malformed address
/// ever appears.
pub proof fn lemma_scan_all_private(output: Seq<char>, platform: Platform)
    ensures
        forall|i: int|
            0 <= i < spec_scan(output, platform).len() ==> spec_is_private_ip(
                #[trigger] spec_scan(output, platform)[i].ip,
            ),
        forall|i: int|
            0 <= i < spec_scan(output, platform).len() ==> crate::ip::spec_parse_ipv4(
                #[trigger] spec_scan(output, platform)[i].ip,
            ) is Some,
{
    let lines = spec_split(output, '\n');
    let collected = spec_collect(lines, platform);
    lemma_collect_private(lines, platform);
    lemma_sort_all(collected, |d: DeviceView| spec_is_private_ip(d.ip));
}

/// For every pair of scanned devices, the earlier one's address key is at
/// most the later one's: the list ascends numerically, octet by octet.
pub proof fn lemma_scan_sorted(output: Seq<char>, platform: Platform)
    ensures
        sorted_by_ip(spec_scan(output, platform)),
{
    lemma_sort_sorted(spec_collect(spec_split(output, '\n'), platform));
}

/// Scanning unchanged text twice yields the same list, order included:
/// the scan's outcome is a function of the text and the line shape alone.
pub proof fn lemma_scan_repeatable(
    output: Seq<char>,
    platform: Platform,
    r1: Seq<DeviceView>,
    r2: Seq<DeviceView>,
)
    requires
        r1 == spec_scan(output, platform),
        r2 == spec_scan(output, platform),
    ensures
        r1 == r2,
{
}

/// Inserts `d` into `devices` just before the first element whose key
/// exceeds `d`'s, realising [`spec_insert_sorted`].
fn insert_device(devices: &mut Vec<NetworkDevice>, d: NetworkDevice)
    ensures
        device_views(final(devices)@) == spec_insert_sorted(d@, device_views(old(devices)@)),
{
    let key = ip_key(d.ip.as_str());
    let mut j: usize = 0;
    while j < devices.len() && ip_key(devices[j].ip.as_str()) <= key
        invariant
            j <= devices@.len(),
            devices@ == old(devices)@,
            key == dev_key(d@),
            forall|m: int| 0 <= m < j ==> dev_key(#[trigger] device_views(devices@)[m]) <= dev_key(
                d@,
            ),
        decreases devices@.len() - j,
    {
        j += 1;
    }
    proof {
        lemma_insert_sorted_at(d@, device_views(devices@), j as int);
    }
    devices.insert(j, d);
    proof {
        let s = device_views(old(devices)@);
        assert(device_views(devices@) =~= s.take(j as int) + seq![d@] + s.skip(j as int));
    }
}

/// Sorts devices by ascending numeric address, stably, realising
/// [`spec_sort`].
pub fn sort_devices(devices: Vec<NetworkDevice>) -> (r: Vec<NetworkDevice>)
    ensures
        device_views(r@) == spec_sort(device_views(devices@)),
{
    let mut rest = devices;
    let mut out: Vec<NetworkDevice> = Vec::new();
    let ghost orig: Seq<NetworkDevice> = rest@;
    proof {
        assert(device_views(out@) =~= Seq::<DeviceView>::empty());
        assert(device_views(orig).take(0) =~= Seq::<DeviceView>::empty());
        assert(orig.skip(0) =~= orig);
    }
    while rest.len() > 0
        invariant
            rest@.len() <= orig.len(),
            rest@ == orig.skip(orig.len() - rest@.len()),
            device_views(out@) == spec_sort(
                device_views(orig).take(orig.len() - rest@.len()),
            ),
        decreases rest@.len(),
    {
        let ghost i = orig.len() - rest@.len();
        let d = rest.remove(0);
        proof {
            assert(d == orig[i]);
            assert(rest@ =~= orig.skip(i + 1));
            let pv = device_views(orig).take(i + 1);
            assert(pv.drop_last() =~= device_views(orig).take(i));
            assert(pv.last() == orig[i]@);
        }
        insert_device(&mut out, d);
    }
    proof {
        assert(device_views(orig).take(orig.len() as int) =~= device_views(orig));
    }
    out
}

/// Parses the whole ARP-utility output: each line's record, only
/// private-range addresses kept, sorted by ascending numeric address —
/// exactly [`spec_scan`]. Lines that fit neither shape are skipped; the
/// result is empty, never an error, when nothing qualifies.
pub fn scan_devices(arp_output: &str, platform: Platform) -> (devices: Vec<NetworkDevice>)
    ensures
        device_views(devices@) == spec_scan(arp_output@, platform),
{
    let lines = split_char(arp_output, '\n');
    let ghost lv = crate::text::views_of(lines@);
    let mut found: Vec<NetworkDevice> = Vec::new();
    let n = lines.len();
    let mut i: usize = 0;
    proof {
        assert(device_views(found@) =~= Seq::<DeviceView>::empty());
        assert(lv.skip(0) =~= lv);
    }
    while i < n
        invariant
            n == lines@.len(),
            i <= n,
            lv == crate::text::views_of(lines@),
            lv == spec_split(arp_output@, '\n'),
            spec_collect(lv, platform) == device_views(found@) + spec_collect(
                lv.skip(i as int),
                platform,
            ),
        decreases n - i,
    {
        let (ip_opt, mac_opt) = parse_arp_line(lines[i].as_str(), platform);
        proof {
            assert(lv.skip(i as int)[0] == lv[i as int]);
            assert(lv[i as int] == lines@[i as int]@);
            assert(lv.skip(i as int).skip(1) =~= lv.skip(i as int + 1));
        }
        match ip_opt {
            Some(ip) => {
                if is_private_ip(ip.as_str()) {
                    let dev = NetworkDevice { ip, mac: mac_opt };
                    proof {
                        assert(spec_line_device(lv[i as int], platform) == Some(dev@));
                        assert(device_views(found@.push(dev)) =~= device_views(found@) + seq![
                            dev@,
                        ]);
                        assert(device_views(found@) + seq![dev@] + spec_collect(
                            lv.skip(i as int + 1),
                            platform,
                        ) =~= device_views(found@) + spec_collect(lv.skip(i as int), platform));
                    }
                    found.push(dev);
                }
            },
            None => {},
        }
        i += 1;
    }
    proof {
        assert(lv.skip(n as int) =~= Seq::<Seq<char>>::empty());
        assert(device_views(found@) =~= spec_collect(lv, platform));
    }
    sort_devices(found)
}

/// A line that yields no record leaves the rest of the scan untouched:
/// malformed lines are skipped, never an error.
pub proof fn lemma_skipped_line(lines: Seq<Seq<char>>, platform: Platform)
    requires
        lines.len() > 0,
        spec_line_device(lines[0], platform) is None,
    ensures
        spec_collect(lines, platform) == spec_collect(lines.skip(1), platform),
{
}

} // verus!
