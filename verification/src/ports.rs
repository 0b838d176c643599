//! Listening TCP ports: the text that `lsof -F pcn` prints turned into
//! port entries, the pid list handed to `ps`, its resident-set sizes, and
//! the parent pid that `ps -o ppid=` prints.
use std::collections::HashMap;
use std::collections::HashSet;
use vstd::prelude::*;
use crate::text::{
    lemma_decimal_plain, lemma_last_index_after, lemma_lines_fold_newline, lemma_lines_fold_plain,
    lemma_words_fold_plain, lemma_words_fold_white, lines_fold, strip_cr, words_fold,
    all_white, chars_in_range, chars_of, decimal, fields_fold, fields_of, find_last,
    is_white_space, last_index_of, lemma_decimal_parses_back, lemma_digits_exclude,
    lemma_fields_fold_plain, lemma_fields_fold_sep, lemma_last_index_of_bounds, lemma_lines_white,
    lemma_trim_empty, lines_of, parse_bounded, parse_u16_range, parse_u32_range, parse_u64_range,
    parse_unsigned, push_decimal, split_lines, split_words, string_from_chars, string_from_range,
    trim, trimmed_range, views_of, words_of,
};

verus! {

broadcast use vstd::std_specs::hash::group_hash_axioms;

/// One process listening on one TCP port.
#[derive(Debug, Clone, PartialEq, Eq)]
pub struct PortEntry {
    pub port: u16,
    pub pid: u32,
    pub process_name: String,
    pub address: String,
    /// Resident set size in KB (0 if unknown)
    pub memory_kb: u64,
}

pub struct PortEntryView {
    pub port: u16,
    pub pid: u32,
    pub process_name: Seq<char>,
    pub address: Seq<char>,
    pub memory_kb: u64,
}

impl View for PortEntry {
    type V = PortEntryView;

    open spec fn view(&self) -> PortEntryView {
        PortEntryView {
            port: self.port,
            pid: self.pid,
            process_name: self.process_name@,
            address: self.address@,
            memory_kb: self.memory_kb,
        }
    }
}

pub open spec fn entries_view(v: Seq<PortEntry>) -> Seq<PortEntryView> {
    v.map_values(|e: PortEntry| e@)
}

// ---------------------------------------------------------------------
// The `lsof -F pcn` listing
// ---------------------------------------------------------------------

/// What has been read of a listing: the pid of the current process block,
/// its command name, and the entries found so far.
pub struct ListingState {
    pub pid: u32,
    pub name: Seq<char>,
    pub entries: Seq<PortEntryView>,
}

pub open spec fn initial_listing() -> ListingState {
    ListingState { pid: 0, name: seq![], entries: seq![] }
}

pub open spec fn has_pid_port(entries: Seq<PortEntryView>, pid: u32, port: u16) -> bool {
    exists|i: int| 0 <= i < entries.len() && #[trigger] entries[i].pid == pid && entries[i].port == port
}

/// A pid field: its number, or 0 where it does not read as a `u32`.
pub open spec fn pid_field(value: Seq<char>) -> u32 {
    match parse_bounded(value, u32::MAX as nat) {
        Some(v) => v as u32,
        None => 0,
    }
}

/// The entry that a network-name field `value` adds, if any: the part
/// after its last `:` must read as a port, the part before is the address,
/// and a pid and port already listed are not listed again.
pub open spec fn network_entry(st: ListingState, value: Seq<char>) -> Option<PortEntryView> {
    if st.pid == 0 {
        None
    } else {
        match last_index_of(value, ':') {
            None => None,
            Some(k) => match parse_bounded(value.skip(k + 1), u16::MAX as nat) {
                None => None,
                Some(port) => if has_pid_port(st.entries, st.pid, port as u16) {
                    None
                } else {
                    Some(
                        PortEntryView {
                            port: port as u16,
                            pid: st.pid,
                            process_name: st.name,
                            address: value.take(k),
                            memory_kb: 0,
                        },
                    )
                },
            },
        }
    }
}

/// One line of the listing: its first character tags the field, the rest
/// is the value. `p` starts a process block, `c` names its command, `n`
/// gives a network name; other lines change nothing.
pub open spec fn listing_step(st: ListingState, line: Seq<char>) -> ListingState {
    if line.len() == 0 {
        st
    } else {
        let value = line.drop_first();
        if line[0] == 'p' {
            ListingState { pid: pid_field(value), name: seq![], entries: st.entries }
        } else if line[0] == 'c' {
            ListingState { name: value, ..st }
        } else if line[0] == 'n' {
            match network_entry(st, value) {
                Some(e) => ListingState { entries: st.entries.push(e), ..st },
                None => st,
            }
        } else {
            st
        }
    }
}

pub open spec fn listing_fold(lines: Seq<Seq<char>>) -> ListingState
    decreases lines.len(),
{
    if lines.len() == 0 {
        initial_listing()
    } else {
        listing_step(listing_fold(lines.drop_last()), lines.last())
    }
}

/// The entries that a listing names, in the order it names them.
pub open spec fn listing_entries(text: Seq<char>) -> Seq<PortEntryView> {
    listing_fold(lines_of(text)).entries
}

/// No pid and port are listed twice; no entry has pid 0; no memory is known yet.
pub open spec fn listing_well_formed(entries: Seq<PortEntryView>) -> bool {
    &&& forall|i: int| 0 <= i < entries.len() ==> (#[trigger] entries[i]).pid != 0
    &&& forall|i: int| 0 <= i < entries.len() ==> (#[trigger] entries[i]).memory_kb == 0
    &&& forall|i: int, j: int|
        0 <= i < j < entries.len() ==> !(#[trigger] entries[i].pid == #[trigger] entries[j].pid
            && entries[i].port == entries[j].port)
}

pub open spec fn pair_key(pid: u32, port: u16) -> u64 {
    (pid as u64 * 65536 + port as u64) as u64
}

proof fn lemma_pair_key_injective(a: u32, b: u16, c: u32, d: u16)
    ensures
        pair_key(a, b) == pair_key(c, d) ==> a == c && b == d,
{
}

spec fn seen_matches(seen: Set<u64>, entries: Seq<PortEntryView>) -> bool {
    forall|k: u64|
        seen.contains(k) <==> exists|j: int|
            0 <= j < entries.len() && k == pair_key(#[trigger] entries[j].pid, entries[j].port)
}

/// Reads the listing that `lsof -nP -iTCP -sTCP:LISTEN -F pcn` prints.
pub fn parse_lsof_listing(text: &str) -> (r: Vec<PortEntry>)
    ensures
        entries_view(r@) == listing_entries(text@),
        listing_well_formed(entries_view(r@)),
{
    let chars = chars_of(text);
    let lines = split_lines(&chars);
    let ghost lv = views_of(lines@);
    let mut entries: Vec<PortEntry> = Vec::new();
    let mut seen: HashSet<u64> = HashSet::new();
    let mut cur_pid: u32 = 0;
    let mut cur_name: Vec<char> = Vec::new();
    let n = lines.len();
    assert(entries_view(entries@) =~= Seq::<PortEntryView>::empty());
    assert(lv.take(0) =~= Seq::<Seq<char>>::empty());
    for i in 0..n
        invariant
            n == lines.len(),
            lv == views_of(lines@),
            lv == lines_of(text@),
            listing_fold(lv.take(i as int)) == (ListingState {
                pid: cur_pid,
                name: cur_name@,
                entries: entries_view(entries@),
            }),
            listing_well_formed(entries_view(entries@)),
            seen_matches(seen@, entries_view(entries@)),
    {
        let line = &lines[i];
        let len = line.len();
        let ghost st = listing_fold(lv.take(i as int));
        assert(lv.take(i + 1).drop_last() == lv.take(i as int));
        assert(lv[i as int] == line@);
        if len > 0 {
            let tag = line[0];
            let ghost value = line@.drop_first();
            assert(value == line@.subrange(1, len as int));
            if tag == 'p' {
                cur_pid = match parse_u32_range(line, 1, len) {
                    Some(v) => v,
                    None => 0,
                };
                cur_name = Vec::new();
            } else if tag == 'c' {
                cur_name = chars_in_range(line, 1, len);
            } else if tag == 'n' && cur_pid != 0 {
                match find_last(line, 1, ':') {
                    None => {},
                    Some(j) => {
                        let ghost k = j - 1;
                        proof {
                            lemma_last_index_of_bounds(value, ':');
                            assert(value.skip(k + 1) == line@.subrange(j + 1, len as int));
                            assert(value.take(k) == line@.subrange(1, j as int));
                        }
                        match parse_u16_range(line, j + 1, len) {
                            None => {},
                            Some(port) => {
                                let key: u64 = cur_pid as u64 * 65536 + port as u64;
                                let ghost ev = entries_view(entries@);
                                proof {
                                    if has_pid_port(ev, cur_pid, port) {
                                        let w = choose|w: int|
                                            0 <= w < ev.len() && #[trigger] ev[w].pid == cur_pid
                                                && ev[w].port == port;
                                        assert(seen@.contains(pair_key(ev[w].pid, ev[w].port)));
                                    }
                                    if seen@.contains(key) {
                                        let w = choose|w: int|
                                            0 <= w < ev.len() && key == pair_key(
                                                #[trigger] ev[w].pid,
                                                ev[w].port,
                                            );
                                        lemma_pair_key_injective(ev[w].pid, ev[w].port, cur_pid, port);
                                    }
                                }
                                let ghost old_seen = seen@;
                                assert(key == pair_key(cur_pid, port));
                                if seen.insert(key) {
                                    let e = PortEntry {
                                        port: port,
                                        pid: cur_pid,
                                        process_name: string_from_chars(&cur_name),
                                        address: string_from_range(line, 1, j),
                                        memory_kb: 0,
                                    };
                                    entries.push(e);
                                    proof {
                                        let nv = entries_view(entries@);
                                        assert(nv =~= ev.push(e@));
                                        assert forall|a: int, b: int|
                                            0 <= a < b < nv.len() implies !(
                                            #[trigger] nv[a].pid == #[trigger] nv[b].pid
                                                && nv[a].port == nv[b].port) by {
                                            if b == nv.len() - 1 && nv[a].pid == nv[b].pid && nv[a].port == nv[b].port {
                                                assert(ev[a].pid == cur_pid && ev[a].port == port);
                                                assert(has_pid_port(ev, cur_pid, port));
                                            }
                                        }
                                        assert forall|kk: u64|
                                            seen@.contains(kk) <==> exists|jj: int|
                                                0 <= jj < nv.len() && kk == pair_key(
                                                    #[trigger] nv[jj].pid,
                                                    nv[jj].port,
                                                ) by {
                                            assert(seen@ == old_seen.insert(key));
                                            if seen@.contains(kk) && kk != key {
                                                assert(old_seen.contains(kk));
                                                let w = choose|w: int|
                                                    0 <= w < ev.len() && kk == pair_key(
                                                        #[trigger] ev[w].pid,
                                                        ev[w].port,
                                                    );
                                                assert(nv[w] == ev[w]);
                                            }
                                            if kk == key {
                                                assert(nv[nv.len() - 1] == e@);
                                                assert(kk == pair_key(
                                                    nv[nv.len() - 1].pid,
                                                    nv[nv.len() - 1].port,
                                                ));
                                            }
                                            if exists|jj: int|
                                                0 <= jj < nv.len() && kk == pair_key(
                                                    #[trigger] nv[jj].pid,
                                                    nv[jj].port,
                                                ) {
                                                let jj = choose|jj: int|
                                                    0 <= jj < nv.len() && kk == pair_key(
                                                        #[trigger] nv[jj].pid,
                                                        nv[jj].port,
                                                    );
                                                if jj < ev.len() {
                                                    assert(nv[jj] == ev[jj]);
                                                    assert(old_seen.contains(kk));
                                                }
                                            }
                                        }
                                    }
                                }
                            },
                        }
                    },
                }
            }
        }
    }
    assert(lv.take(n as int) == lv);
    entries
}

/// What the listing step of a refresh yields: `lsof` exits non-zero when
/// nothing listens, so a failed run with blank output is an empty list.
pub open spec fn listing_result(succeeded: bool, stdout: Seq<char>) -> Seq<PortEntryView> {
    if !succeeded && trim(stdout).len() == 0 {
        seq![]
    } else {
        listing_entries(stdout)
    }
}

/// The entries of an `lsof` run, from whether it exited successfully and
/// what it printed.
pub fn listing_from_lsof(succeeded: bool, stdout: &str) -> (r: Vec<PortEntry>)
    ensures
        entries_view(r@) == listing_result(succeeded, stdout@),
        listing_well_formed(entries_view(r@)),
{
    if !succeeded {
        let chars = chars_of(stdout);
        let (lo, hi) = trimmed_range(&chars);
        if lo == hi {
            let r: Vec<PortEntry> = Vec::new();
            assert(entries_view(r@) =~= Seq::<PortEntryView>::empty());
            return r;
        }
    }
    parse_lsof_listing(stdout)
}

proof fn lemma_white_lines_list_nothing(lines: Seq<Seq<char>>)
    requires
        forall|i: int| 0 <= i < lines.len() ==> all_white(#[trigger] lines[i]),
    ensures
        listing_fold(lines) == initial_listing(),
    decreases lines.len(),
{
    if lines.len() > 0 {
        let front = lines.drop_last();
        assert forall|i: int| 0 <= i < front.len() implies all_white(#[trigger] front[i]) by {
            assert(front[i] == lines[i]);
        }
        lemma_white_lines_list_nothing(front);
        let line = lines.last();
        assert(all_white(line));
        if line.len() > 0 {
            assert(is_white_space(line[0]));
        }
    }
}

/// Blank output lists no ports, so whether `lsof` exited successfully
/// never changes the entries: the failed run with blank output that means
/// "nothing listens" and a parse of that output agree.
pub proof fn lemma_exit_status_irrelevant(succeeded: bool, stdout: Seq<char>)
    ensures
        listing_result(succeeded, stdout) == listing_entries(stdout),
{
    if trim(stdout).len() == 0 {
        lemma_trim_empty(stdout);
        lemma_lines_white(stdout);
        lemma_white_lines_list_nothing(lines_of(stdout));
    }
}

/// Any listening port is listed, whatever its number: a process block
/// with a non-zero pid followed by a network name `address:port` gives
/// exactly one entry with that pid, address and port.
pub proof fn lemma_listing_reads_any_port(pid: u32, address: Seq<char>, port: u16)
    requires
        pid > 0,
        forall|i: int| 0 <= i < address.len() ==> address[i] != '\n',
    ensures
        listing_entries(
            seq!['p'] + decimal(pid as nat) + seq!['\n', 'n'] + address + seq![':'] + decimal(
                port as nat,
            ) + seq!['\n'],
        ) == seq![
            PortEntryView {
                port,
                pid,
                process_name: Seq::<char>::empty(),
                address,
                memory_kb: 0,
            },
        ],
{
    let dp = decimal(pid as nat);
    let dq = decimal(port as nat);
    lemma_decimal_plain(pid as nat);
    lemma_decimal_plain(port as nat);
    lemma_decimal_parses_back(pid as nat);
    lemma_decimal_parses_back(port as nat);
    let l1 = seq!['p'] + dp;
    let value = address.push(':') + dq;
    let l2 = seq!['n'] + value;
    let text = seq!['p'] + dp + seq!['\n', 'n'] + address + seq![':'] + dq + seq!['\n'];
    assert(text =~= (l1.push('\n') + l2).push('\n'));
    let e = Seq::<char>::empty();
    // the first line
    assert forall|i: int| 0 <= i < l1.len() implies l1[i] != '\n' by {
        if i > 0 {
            assert(l1[i] == dp[i - 1]);
        }
    }
    lemma_lines_fold_plain(e, l1);
    assert(e + l1 =~= l1);
    assert(lines_fold(e) == (Seq::<Seq<char>>::empty(), e));
    assert(e + l1 =~= l1);
    lemma_lines_fold_newline(l1);
    assert(l1.last() == dp.last());
    assert(strip_cr(l1) == l1);
    // the second line
    assert forall|i: int| 0 <= i < l2.len() implies l2[i] != '\n' by {
        if i > 0 {
            assert(l2[i] == value[i - 1]);
            if i - 1 < address.len() {
                assert(value[i - 1] == address[i - 1]);
            } else if i - 1 > address.len() {
                assert(value[i - 1] == dq[i - 1 - address.len() - 1]);
            }
        }
    }
    lemma_lines_fold_plain(l1.push('\n'), l2);
    assert(Seq::<char>::empty() + l2 =~= l2);
    lemma_lines_fold_newline(l1.push('\n') + l2);
    assert(l2.last() == dq.last());
    assert(strip_cr(l2) == l2);
    let lines = seq![l1, l2];
    assert(lines_of(text) =~= lines);
    // reading the two lines
    assert(lines.drop_last() =~= seq![l1]);
    assert(seq![l1].drop_last() =~= Seq::<Seq<char>>::empty());
    assert(l1.drop_first() =~= dp);
    assert(l1[0] == 'p');
    assert(parse_bounded(dp, u32::MAX as nat) == Some(pid as nat));
    assert(pid_field(dp) == pid);
    assert(listing_fold(Seq::<Seq<char>>::empty()) == initial_listing());
    assert(listing_fold(seq![l1]) == listing_step(initial_listing(), l1));
    let st = listing_fold(seq![l1]);
    assert(st == ListingState { pid, name: seq![], entries: seq![] });
    assert(l2[0] == 'n');
    assert(parse_bounded(dq, u16::MAX as nat) == Some(port as nat));
    assert(listing_fold(lines) == listing_step(st, l2));
    assert(l2.drop_first() =~= value);
    lemma_last_index_after(address, ':', dq);
    assert(value.skip(address.len() + 1 as int) =~= dq);
    assert(value.take(address.len() as int) =~= address);
    assert(!has_pid_port(st.entries, pid, port));
}

// ---------------------------------------------------------------------
// The pids handed to `ps`
// ---------------------------------------------------------------------

pub open spec fn strictly_increasing(s: Seq<u32>) -> bool {
    forall|i: int, j: int| 0 <= i < j < s.len() ==> s[i] < s[j]
}

pub open spec fn names_pid(entries: Seq<PortEntryView>, pid: u32) -> bool {
    exists|i: int| 0 <= i < entries.len() && (#[trigger] entries[i]).pid == pid
}

/// The pids of the entries, each once, in increasing order.
pub fn distinct_pids(entries: &Vec<PortEntry>) -> (r: Vec<u32>)
    ensures
        strictly_increasing(r@),
        forall|p: u32| r@.contains(p) <==> names_pid(entries_view(entries@), p),
{
    let ghost ev = entries_view(entries@);
    let mut out: Vec<u32> = Vec::new();
    let n = entries.len();
    for i in 0..n
        invariant
            n == entries.len(),
            ev == entries_view(entries@),
            strictly_increasing(out@),
            forall|p: u32| out@.contains(p) <==> names_pid(ev.take(i as int), p),
    {
        let p = entries[i].pid;
        let mut k: usize = 0;
        while k < out.len() && out[k] < p
            invariant
                k <= out.len(),
                forall|j: int| 0 <= j < k ==> out@[j] < p,
            decreases out.len() - k,
        {
            k = k + 1;
        }
        let ghost before = out@;
        assert(forall|q: u32| before.contains(q) <==> names_pid(ev.take(i as int), q));
        if k < out.len() && out[k] == p {
        } else {
            out.insert(k, p);
            assert forall|a: int, b: int| 0 <= a < b < out@.len() implies out@[a] < out@[b] by {
                if b < k {
                } else if b == k {
                } else if a < k {
                    assert(out@[b] == before[b - 1]);
                    assert(before[b - 1] >= before[k as int]);
                } else if a == k {
                    assert(before[b - 1] >= before[k as int]);
                } else {
                    assert(out@[a] == before[a - 1]);
                    assert(out@[b] == before[b - 1]);
                }
            }
        }
        assert forall|q: u32| out@.contains(q) <==> (before.contains(q) || q == p) by {
            if k < before.len() && before[k as int] == p {
                assert(out@ == before);
            } else {
                assert(out@ == before.insert(k as int, p));
                if before.contains(q) {
                    let z = choose|z: int| 0 <= z < before.len() && before[z] == q;
                    if z < k {
                        assert(out@[z] == q);
                    } else {
                        assert(out@[z + 1] == q);
                    }
                }
                if q == p {
                    assert(out@[k as int] == p);
                }
                if out@.contains(q) {
                    let z = choose|z: int| 0 <= z < out@.len() && out@[z] == q;
                    if z < k {
                        assert(before[z] == q);
                    } else if z > k {
                        assert(before[z - 1] == q);
                    }
                }
            }
        }
        assert forall|q: u32|
            names_pid(ev.take(i + 1), q) <==> (names_pid(ev.take(i as int), q) || q == p) by {
            let t = ev.take(i + 1);
            let t0 = ev.take(i as int);
            assert(t[i as int] == ev[i as int]);
            assert(ev[i as int].pid == p);
            if names_pid(t, q) {
                let w = choose|w: int| 0 <= w < t.len() && (#[trigger] t[w]).pid == q;
                if w < i {
                    assert(t0[w] == t[w]);
                }
            }
            if names_pid(t0, q) {
                let w = choose|w: int| 0 <= w < t0.len() && (#[trigger] t0[w]).pid == q;
                assert(t0[w] == t[w]);
            }
        }
        assert forall|q: u32| out@.contains(q) <==> names_pid(ev.take(i + 1), q) by {
            assert(before.contains(q) <==> names_pid(ev.take(i as int), q));
        }
    }
    assert(ev.take(n as int) == ev);
    out
}

/// The pids written in decimal and joined with commas.
pub open spec fn joined_pids(pids: Seq<u32>) -> Seq<char>
    decreases pids.len(),
{
    if pids.len() == 0 {
        seq![]
    } else if pids.len() == 1 {
        decimal(pids[0] as nat)
    } else {
        joined_pids(pids.drop_last()) + seq![','] + decimal(pids.last() as nat)
    }
}

/// The `-p` argument of the single `ps` call that reads the memory of all
/// pids; `None` when there are no pids and so no call to make.
pub fn ps_pid_argument(pids: &Vec<u32>) -> (r: Option<String>)
    ensures
        r is None <==> pids.len() == 0,
        r matches Some(s) ==> s@ == joined_pids(pids@),
{
    let n = pids.len();
    if n == 0 {
        return None;
    }
    let mut out: Vec<char> = Vec::new();
    push_decimal(&mut out, pids[0] as u64);
    assert(out@ =~= decimal(pids@[0] as nat));
    for i in 1..n
        invariant
            n == pids.len(),
            n > 0,
            out@ == joined_pids(pids@.take(i as int)),
    {
        assert(pids@.take(i + 1).drop_last() == pids@.take(i as int));
        out.push(',');
        push_decimal(&mut out, pids[i] as u64);
    }
    assert(pids@.take(n as int) == pids@);
    Some(string_from_chars(&out))
}

/// The argument that `ps` gets names exactly the pids: its comma-separated
/// fields read back, one by one, as the pids in order.
pub proof fn lemma_pid_argument_reads_back(pids: Seq<u32>)
    requires
        pids.len() > 0,
    ensures
        fields_of(joined_pids(pids), ',').len() == pids.len(),
        forall|i: int|
            0 <= i < pids.len() ==> parse_unsigned(#[trigger] fields_of(joined_pids(pids), ',')[i])
                == Some(pids[i] as nat),
    decreases pids.len(),
{
    let last = decimal(pids.last() as nat);
    lemma_decimal_parses_back(pids.last() as nat);
    lemma_digits_exclude(last, ',');
    if pids.len() == 1 {
        assert(joined_pids(pids) == last);
        lemma_fields_fold_plain(Seq::<char>::empty(), last, ',');
        assert(Seq::<char>::empty() + last =~= last);
        assert(Seq::<char>::empty() + last =~= last);
        assert(fields_fold(Seq::<char>::empty(), ',') == (
            Seq::<Seq<char>>::empty(),
            Seq::<char>::empty(),
        ));
        assert(fields_of(joined_pids(pids), ',') =~= seq![last]);
    } else {
        let front = pids.drop_last();
        let jf = joined_pids(front);
        lemma_pid_argument_reads_back(front);
        assert(joined_pids(pids) == jf + seq![','] + last);
        assert(jf + seq![','] == jf.push(','));
        lemma_fields_fold_sep(jf, ',');
        lemma_fields_fold_plain(jf.push(','), last, ',');
        assert(Seq::<char>::empty() + last =~= last);
        assert(fields_of(joined_pids(pids), ',') == fields_of(jf, ',').push(last));
        assert forall|i: int| 0 <= i < pids.len() implies parse_unsigned(
            #[trigger] fields_of(joined_pids(pids), ',')[i],
        ) == Some(pids[i] as nat) by {
            if i < pids.len() - 1 {
                assert(fields_of(joined_pids(pids), ',')[i] == fields_of(jf, ',')[i]);
                assert(front[i] == pids[i]);
            }
        }
    }
}

// ---------------------------------------------------------------------
// Resident-set sizes: `ps -o pid=,rss=`
// ---------------------------------------------------------------------

/// One line of `ps` output: a pid and a size as its first two words.
pub open spec fn rss_step(m: Map<u32, u64>, line: Seq<char>) -> Map<u32, u64> {
    let w = words_of(line);
    if w.len() < 2 {
        m
    } else {
        match (parse_bounded(w[0], u32::MAX as nat), parse_bounded(w[1], u64::MAX as nat)) {
            (Some(pid), Some(rss)) => m.insert(pid as u32, rss as u64),
            _ => m,
        }
    }
}

pub open spec fn rss_fold(lines: Seq<Seq<char>>) -> Map<u32, u64>
    decreases lines.len(),
{
    if lines.len() == 0 {
        Map::empty()
    } else {
        rss_step(rss_fold(lines.drop_last()), lines.last())
    }
}

/// The size in KB that the output names for each pid (the last line wins).
pub open spec fn rss_table(text: Seq<char>) -> Map<u32, u64> {
    rss_fold(lines_of(text))
}

/// Reads what `ps -o pid=,rss=` printed.
pub fn parse_rss(text: &str) -> (r: HashMap<u32, u64>)
    ensures
        r@ == rss_table(text@),
{
    let chars = chars_of(text);
    let lines = split_lines(&chars);
    let ghost lv = views_of(lines@);
    let mut map: HashMap<u32, u64> = HashMap::new();
    let n = lines.len();
    assert(lv.take(0) =~= Seq::<Seq<char>>::empty());
    for i in 0..n
        invariant
            n == lines.len(),
            lv == views_of(lines@),
            lv == lines_of(text@),
            map@ == rss_fold(lv.take(i as int)),
    {
        assert(lv.take(i + 1).drop_last() == lv.take(i as int));
        assert(lv[i as int] == lines[i as int]@);
        let words = split_words(&lines[i]);
        if words.len() >= 2 {
            assert(views_of(words@)[0] == words[0]@);
            assert(views_of(words@)[1] == words[1]@);
            assert(words[0]@.subrange(0, words[0]@.len() as int) == words[0]@);
            assert(words[1]@.subrange(0, words[1]@.len() as int) == words[1]@);
            let pid = parse_u32_range(&words[0], 0, words[0].len());
            let rss = parse_u64_range(&words[1], 0, words[1].len());
            match (pid, rss) {
                (Some(p), Some(v)) => {
                    map.insert(p, v);
                },
                _ => {},
            }
        }
    }
    assert(lv.take(n as int) == lv);
    map
}

/// A line whose first two words read as a pid and a size records that
/// pair, for every pid and every size, and a later line for the same pid
/// overrides what came before: whatever `text` held, appending
/// `pid size` as its last line makes the table map `pid` to `size`.
pub proof fn lemma_rss_line_records_pair(text: Seq<char>, pid: u32, rss: u64)
    requires
        text.len() == 0 || text.last() == '\n',
    ensures
        rss_table(text + decimal(pid as nat) + seq![' '] + decimal(rss as nat) + seq!['\n']).contains_key(pid),
        rss_table(text + decimal(pid as nat) + seq![' '] + decimal(rss as nat) + seq!['\n'])[pid] == rss,
{
    let dp = decimal(pid as nat);
    let dr = decimal(rss as nat);
    lemma_decimal_plain(pid as nat);
    lemma_decimal_plain(rss as nat);
    lemma_decimal_parses_back(pid as nat);
    lemma_decimal_parses_back(rss as nat);
    let line = dp.push(' ') + dr;
    let whole = text + dp + seq![' '] + dr + seq!['\n'];
    assert(whole =~= (text + line).push('\n'));
    // the open line of `text` is empty
    if text.len() > 0 {
        assert(text.drop_last().push('\n') =~= text);
        lemma_lines_fold_newline(text.drop_last());
    }
    assert(lines_fold(text).1.len() == 0);
    assert(lines_of(text) == lines_fold(text).0);
    // the new line
    assert forall|i: int| 0 <= i < line.len() implies line[i] != '\n' by {
        if i < dp.len() {
            assert(line[i] == dp[i]);
        } else if i > dp.len() {
            assert(line[i] == dr[i - dp.len() - 1]);
        }
    }
    lemma_lines_fold_plain(text, line);
    assert(lines_fold(text).1 + line =~= line);
    lemma_lines_fold_newline(text + line);
    assert(line.last() == dr.last());
    assert(strip_cr(line) == line);
    assert(lines_of(whole) == lines_of(text).push(line));
    // its words
    let e = Seq::<char>::empty();
    lemma_words_fold_plain(e, dp);
    assert(e + dp =~= dp);
    assert(words_fold(e) == (Seq::<Seq<char>>::empty(), e));
    assert(e + dp =~= dp);
    assert(is_white_space(' '));
    lemma_words_fold_white(dp, ' ');
    lemma_words_fold_plain(dp.push(' '), dr);
    assert(e + dr =~= dr);
    assert(words_of(line) =~= seq![dp, dr]);
    assert(parse_bounded(dp, u32::MAX as nat) == Some(pid as nat));
    assert(parse_bounded(dr, u64::MAX as nat) == Some(rss as nat));
    let lines = lines_of(text).push(line);
    assert(lines.drop_last() =~= lines_of(text));
    assert(rss_fold(lines) == rss_step(rss_fold(lines_of(text)), line));
}

/// The size that the table names for `pid`, or 0 where it names none.
pub open spec fn memory_of(table: Map<u32, u64>, pid: u32) -> u64 {
    if table.contains_key(pid) {
        table[pid]
    } else {
        0
    }
}

/// The entries with their memory filled in from the table.
pub fn with_memory(entries: &Vec<PortEntry>, table: &HashMap<u32, u64>) -> (r: Vec<PortEntry>)
    ensures
        r@.len() == entries@.len(),
        forall|i: int|
            0 <= i < r@.len() ==> (#[trigger] r@[i])@ == (PortEntryView {
                memory_kb: memory_of(table@, entries@[i].pid),
                ..entries@[i]@
            }),
{
    let mut out: Vec<PortEntry> = Vec::new();
    let n = entries.len();
    for i in 0..n
        invariant
            n == entries.len(),
            out@.len() == i,
            forall|j: int|
                0 <= j < i ==> (#[trigger] out@[j])@ == (PortEntryView {
                    memory_kb: memory_of(table@, entries@[j].pid),
                    ..entries@[j]@
                }),
    {
        let e = &entries[i];
        let m = match table.get(&e.pid) {
            Some(v) => *v,
            None => 0,
        };
        out.push(
            PortEntry {
                port: e.port,
                pid: e.pid,
                process_name: e.process_name.clone(),
                address: e.address.clone(),
                memory_kb: m,
            },
        );
    }
    out
}

// ---------------------------------------------------------------------
// Parent pid: `ps -o ppid=`
// ---------------------------------------------------------------------

/// The parent pid that `ps -o ppid=` printed; pids 0 and 1 (no real
/// parent) and unreadable output give `None`.
pub open spec fn parent_pid_of(text: Seq<char>) -> Option<u32> {
    match parse_bounded(trim(text), u32::MAX as nat) {
        Some(v) => if v <= 1 {
            None
        } else {
            Some(v as u32)
        },
        None => None,
    }
}

pub fn parse_parent_pid(stdout: &str) -> (r: Option<u32>)
    ensures
        r == parent_pid_of(stdout@),
        r matches Some(p) ==> p > 1,
{
    let chars = chars_of(stdout);
    let (lo, hi) = trimmed_range(&chars);
    match parse_u32_range(&chars, lo, hi) {
        Some(v) => if v <= 1 {
            None
        } else {
            Some(v)
        },
        None => None,
    }
}

} // verus!
