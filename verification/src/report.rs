//! The report of a scan: one line for every discovered host, ascending by
//! address, in columns divided by tabs.

use vstd::prelude::*;

use crate::labels::{LabelRecord, LabelStore};
use crate::registry::{DiscoveredHost, HostRegistry};
use crate::text::{append_chars, chars_of, pad, pad_to, string_of, strings};

verus! {

/// The width of the address column: no address is written in more than 15
/// characters.
pub const ADDRESS_WIDTH: usize = 15;

/// The width of the hardware-address column: a hardware address is written
/// in 17 characters.
pub const HARDWARE_WIDTH: usize = 17;

/// The number of bytes that a text takes in UTF-8.
pub open spec fn byte_length(s: Seq<char>) -> int {
    vstd::utf8::encode_utf8(s).len() as int
}

/// The entry that the inventory has for a host, found under the canonical
/// text of its hardware address. Without an inventory there is none.
pub open spec fn label_for(
    labels: Option<Map<Seq<char>, LabelRecord>>,
    host: DiscoveredHost,
) -> Option<LabelRecord> {
    match labels {
        Some(m) => if m.contains_key(host.hardware.text()) {
            Some(m[host.hardware.text()])
        } else {
            None
        },
        None => None,
    }
}

/// The width of the label column: the greatest number of bytes of a label
/// among the hosts that have an entry.
pub open spec fn label_width(
    labels: Option<Map<Seq<char>, LabelRecord>>,
    hosts: Seq<DiscoveredHost>,
) -> int
    decreases hosts.len(),
{
    if hosts.len() == 0 {
        0
    } else {
        let w = label_width(labels, hosts.drop_last());
        let x = match label_for(labels, hosts.last()) {
            Some(r) => byte_length(r.label),
            None => 0,
        };
        if x > w {
            x
        } else {
            w
        }
    }
}

/// The width of the hostname column: the greatest number of bytes of a
/// hostname among the hosts whose entry has one.
pub open spec fn hostname_width(
    labels: Option<Map<Seq<char>, LabelRecord>>,
    hosts: Seq<DiscoveredHost>,
) -> int
    decreases hosts.len(),
{
    if hosts.len() == 0 {
        0
    } else {
        let w = hostname_width(labels, hosts.drop_last());
        let x = match label_for(labels, hosts.last()) {
            Some(r) => match r.hostname {
                Some(h) => byte_length(h),
                None => 0,
            },
            None => 0,
        };
        if x > w {
            x
        } else {
            w
        }
    }
}

/// The line of a host: address and hardware address; behind them, where
/// the inventory has an entry for the host, the hostname if the entry has
/// one, and the label. Every column is filled up with blanks to its width.
pub open spec fn report_line(
    labels: Option<Map<Seq<char>, LabelRecord>>,
    host: DiscoveredHost,
    hostname_width: int,
    label_width: int,
) -> Seq<char> {
    let head = pad(host.address.text(), 15) + seq!['\t'] + pad(host.hardware.text(), 17);
    match label_for(labels, host) {
        Some(r) => match r.hostname {
            Some(h) => head + seq!['\t'] + pad(h, hostname_width) + seq!['\t'] + pad(
                r.label,
                label_width,
            ),
            None => head + seq!['\t'] + pad(r.label, label_width),
        },
        None => head,
    }
}

/// The lines of the report, one for each host, in the order of the hosts.
pub open spec fn report_lines(
    labels: Option<Map<Seq<char>, LabelRecord>>,
    hosts: Seq<DiscoveredHost>,
) -> Seq<Seq<char>> {
    Seq::new(
        hosts.len(),
        |i: int|
            report_line(labels, hosts[i], hostname_width(labels, hosts), label_width(labels, hosts)),
    )
}

/// The inventory as the report sees it.
pub open spec fn inventory(labels: Option<&LabelStore>) -> Option<Map<Seq<char>, LabelRecord>> {
    match labels {
        Some(s) => Some(s@),
        None => None,
    }
}

/// Writes the report of the hosts of `hosts`, with what `labels` knows of
/// them where labels are looked up.
pub fn report(hosts: &HostRegistry, labels: Option<&LabelStore>) -> (r: Vec<String>)
    requires
        hosts.wf(),
        labels matches Some(s) ==> s.wf(),
    ensures
        strings(r@) == report_lines(inventory(labels), hosts@),
{
    let ghost inv = inventory(labels);
    let n = hosts.len();
    let mut label_w: usize = 0;
    let mut hostname_w: usize = 0;
    let mut i: usize = 0;
    while i < n
        invariant
            n == hosts@.len(),
            i <= n,
            inv == inventory(labels),
            labels matches Some(s) ==> s.wf(),
            label_w == label_width(inv, hosts@.subrange(0, i as int)),
            hostname_w == hostname_width(inv, hosts@.subrange(0, i as int)),
        decreases n - i,
    {
        assert(hosts@.subrange(0, i + 1).drop_last() == hosts@.subrange(0, i as int));
        let host = hosts.get(i);
        let key = host.hardware.to_text();
        match labels {
            Some(store) => match store.get(key.as_str()) {
                Some(e) => {
                    let x = e.label.as_str().as_bytes().len();
                    if x > label_w {
                        label_w = x;
                    }
                    match &e.hostname {
                        Some(h) => {
                            let y = h.as_str().as_bytes().len();
                            if y > hostname_w {
                                hostname_w = y;
                            }
                        },
                        None => {},
                    }
                },
                None => {},
            },
            None => {},
        }
        i = i + 1;
    }
    assert(hosts@.subrange(0, n as int) == hosts@);
    let mut r: Vec<String> = Vec::new();
    let mut i: usize = 0;
    while i < n
        invariant
            n == hosts@.len(),
            i <= n,
            inv == inventory(labels),
            labels matches Some(s) ==> s.wf(),
            label_w == label_width(inv, hosts@),
            hostname_w == hostname_width(inv, hosts@),
            strings(r@) == report_lines(inv, hosts@).subrange(0, i as int),
        decreases n - i,
    {
        let host = hosts.get(i);
        let key = host.hardware.to_text();
        let mut line = host.address.to_chars();
        pad_to(&mut line, ADDRESS_WIDTH);
        line.push('\t');
        let mut hardware = host.hardware.to_chars();
        pad_to(&mut hardware, HARDWARE_WIDTH);
        append_chars(&mut line, &hardware);
        match labels {
            Some(store) => match store.get(key.as_str()) {
                Some(e) => {
                    match &e.hostname {
                        Some(h) => {
                            line.push('\t');
                            let mut column = chars_of(h.as_str());
                            pad_to(&mut column, hostname_w);
                            append_chars(&mut line, &column);
                        },
                        None => {},
                    }
                    line.push('\t');
                    let mut column = chars_of(e.label.as_str());
                    pad_to(&mut column, label_w);
                    append_chars(&mut line, &column);
                },
                None => {},
            },
            None => {},
        }
        assert(line@ =~= report_line(inv, hosts@[i as int], hostname_w as int, label_w as int));
        let s = string_of(&line, 0, line.len());
        assert(line@.subrange(0, line.len() as int) == line@);
        let ghost before = strings(r@);
        r.push(s);
        assert(strings(r@) == before.push(line@));
        i = i + 1;
    }
    assert(report_lines(inv, hosts@).subrange(0, n as int) == report_lines(inv, hosts@));
    r
}

} // verus!
