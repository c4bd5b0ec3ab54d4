//! Helpers of the API layer.

use crate::text;
use vstd::prelude::*;

verus! {

/// The remote client's IP address as a string.
///
/// Priority:
/// 1) First IP from the text of the X-Forwarded-For header if present.
/// 2) IP of the socket address, if it is known.
/// 3) Fallback to "unknown".
pub fn remote_ip(forwarded: Option<&str>, socket_ip: Option<String>) -> (res: String)
    ensures
        if forwarded is Some && names_ip(forwarded->0@) {
            is_forwarded_ip(res@, forwarded->0@)
        } else if socket_ip is Some {
            res == socket_ip->0
        } else {
            res@ == "unknown"@
        },
{
    if let Some(ip) = x_forwarded_for(forwarded) {
        return ip;
    }
    if let Some(ip) = socket_ip {
        return ip;
    }
    "unknown".to_string()
}

/// `ip` is the first item of the header, without white space around it.
pub open spec fn is_forwarded_ip(ip: Seq<char>, header: Seq<char>) -> bool {
    exists|item: Seq<char>| #[trigger]
        text::is_first_item(item, header) && text::is_trimmed(ip, item)
}

/// The first item of the header is not blank.
pub open spec fn names_ip(header: Seq<char>) -> bool {
    exists|i: int|
        {
            &&& 0 <= i < header.len()
            &&& !text::blank(#[trigger] header[i])
            &&& forall|j: int| 0 <= j <= i ==> #[trigger] header[j] != ','
        }
}

/// Extract the first IP from the X-Forwarded-For header when present.
pub fn x_forwarded_for(header: Option<&str>) -> (res: Option<String>)
    ensures
        match res {
            Some(ip) => {
                &&& header is Some
                &&& names_ip(header->0@)
                &&& is_forwarded_ip(ip@, header->0@)
            },
            None => header is Some ==> !names_ip(header->0@),
        },
{
    let header = match header {
        Some(header) => header,
        None => {
            return None;
        },
    };
    let item = text::first_item(header);
    let first = text::trimmed(item);
    proof {
        let whole = header@;
        let part = item@;
        let ip = first@;
        assert(is_forwarded_ip(ip, whole));
        let (from, to) = choose|from: int, to: int|
            {
                &&& 0 <= from <= to <= part.len()
                &&& ip == #[trigger] part.subrange(from, to)
                &&& forall|i: int| 0 <= i < from ==> text::blank(#[trigger] part[i])
                &&& forall|i: int| to <= i < part.len() ==> text::blank(#[trigger] part[i])
                &&& from < to ==> !text::blank(part[from]) && !text::blank(part[to - 1])
                &&& from == to ==> forall|i: int|
                    0 <= i < part.len() ==> text::blank(#[trigger] part[i])
            };
        assert forall|i: int| 0 <= i < part.len() implies #[trigger] part[i] == whole[i] && whole[i]
            != ',' by {
            assert(part.contains(part[i]));
        }
        if ip.len() > 0 {
            assert(!text::blank(whole[from]));
            assert(forall|j: int| 0 <= j <= from ==> #[trigger] whole[j] == part[j]);
            assert(names_ip(whole));
        } else {
            if names_ip(whole) {
                let i = choose|i: int|
                    {
                        &&& 0 <= i < whole.len()
                        &&& !text::blank(#[trigger] whole[i])
                        &&& forall|j: int| 0 <= j <= i ==> #[trigger] whole[j] != ','
                    };
                if i < part.len() {
                    assert(part[i] == whole[i]);
                } else {
                    assert(whole[part.len() as int] == ',');
                }
            }
        }
    }
    if first.is_empty() {
        None
    } else {
        Some(first.to_string())
    }
}

/// The address that a header names is its first item without white space: it holds no comma, does
/// not begin or end with white space, and is empty exactly if the header names none. A header names
/// one address only.
pub proof fn law_forwarded_ip_is_first_item(ip: Seq<char>, header: Seq<char>)
    requires
        is_forwarded_ip(ip, header),
    ensures
        ip.len() > 0 <==> names_ip(header),
        !ip.contains(','),
        ip.len() > 0 ==> !text::blank(ip[0]) && !text::blank(ip[ip.len() - 1]),
        forall|other: Seq<char>| #[trigger] is_forwarded_ip(other, header) ==> other == ip,
{
    let item = choose|item: Seq<char>| #[trigger]
        text::is_first_item(item, header) && text::is_trimmed(ip, item);
    text::law_trimming_takes_off_blanks(ip, item);
    let (before, after) = choose|before: Seq<char>, after: Seq<char>|
        {
            &&& item == #[trigger] (before + ip + after)
            &&& forall|i: int| 0 <= i < before.len() ==> text::blank(#[trigger] before[i])
            &&& forall|i: int| 0 <= i < after.len() ==> text::blank(#[trigger] after[i])
        };
    assert forall|i: int| 0 <= i < item.len() implies #[trigger] item[i] == header[i] && header[i]
        != ',' by {
        assert(item.contains(item[i]));
    }
    assert forall|i: int| 0 <= i < ip.len() implies #[trigger] ip[i] != ',' by {
        assert(ip[i] == item[before.len() + i]);
    }
    if ip.len() > 0 {
        let at = before.len() as int;
        assert(item[at] == ip[0]);
        assert(!text::blank(header[at]));
        assert forall|j: int| 0 <= j <= at implies #[trigger] header[j] != ',' by {
            assert(item[j] == header[j]);
        }
    }
    if names_ip(header) {
        let i = choose|i: int|
            {
                &&& 0 <= i < header.len()
                &&& !text::blank(#[trigger] header[i])
                &&& forall|j: int| 0 <= j <= i ==> #[trigger] header[j] != ','
            };
        if i >= item.len() {
            assert(header[item.len() as int] == ',');
        }
        assert(item[i] == header[i]);
    }
    assert forall|other: Seq<char>| #[trigger] is_forwarded_ip(other, header) implies other == ip by {
        let same = choose|same: Seq<char>| #[trigger]
            text::is_first_item(same, header) && text::is_trimmed(other, same);
        if same.len() < item.len() {
            assert(item[same.len() as int] == header[same.len() as int]);
        }
        if item.len() < same.len() {
            assert(same[item.len() as int] == header[item.len() as int]);
            assert(same.contains(same[item.len() as int]));
        }
        assert(same =~= item);
        text::law_trimming_undoes_padding(before, ip, after);
    }
}

/// What a proxy writes is found again: an address, with white space around it and further addresses
/// behind a comma, or none.
pub proof fn law_first_address_is_found(
    before: Seq<char>,
    ip: Seq<char>,
    after: Seq<char>,
    others: Seq<char>,
)
    requires
        forall|i: int| 0 <= i < before.len() ==> text::blank(#[trigger] before[i]),
        forall|i: int| 0 <= i < after.len() ==> text::blank(#[trigger] after[i]),
        ip.len() > 0,
        !text::blank(ip[0]),
        !text::blank(ip[ip.len() - 1]),
        !ip.contains(','),
    ensures
        names_ip(before + ip + after),
        is_forwarded_ip(ip, before + ip + after),
        names_ip(before + ip + after + seq![','] + others),
        is_forwarded_ip(ip, before + ip + after + seq![','] + others),
{
    let item = before + ip + after;
    let whole = item + seq![','] + others;
    assert forall|i: int| 0 <= i < item.len() implies #[trigger] item[i] != ',' by {
        if i < before.len() {
            assert(item[i] == before[i]);
        } else if i < before.len() + ip.len() {
            assert(item[i] == ip[i - before.len()]);
            assert(ip.contains(ip[i - before.len()]));
        } else {
            assert(item[i] == after[i - before.len() - ip.len()]);
        }
    }
    text::law_first_item_ends_at_comma(item, others);
    text::law_trimming_undoes_padding(before, ip, after);
    assert(is_forwarded_ip(ip, item));
    assert(is_forwarded_ip(ip, whole));
    law_forwarded_ip_is_first_item(ip, item);
    law_forwarded_ip_is_first_item(ip, whole);
}

} // verus!
