use vstd::prelude::*;
use vstd::string::StringSliceAdditionalSpecFns;
use vstd::utf8::*;
use crate::text::{split_on, contains_bytes, trimmed, is_white_space, law_trim_drops_only_outer_whitespace, split_text, bytes_contain, trim_text, lemma_encode_utf8_concat, lemma_encode_utf8_injective, lemma_ascii_boundary};

verus! {

broadcast use vstd::seq_lib::group_seq_properties;

/// The byte `}` that closes a lease block.
pub const CLOSE_BRACE: u8 = 0x7d;
/// The byte `{` that opens a lease block.
pub const OPEN_BRACE: u8 = 0x7b;
/// The line separator.
pub const NEWLINE: u8 = 0x0a;

/// The word `hardware`, which marks the line holding a lease's MAC address.
pub open spec fn hardware_word() -> Seq<u8> {
    seq![0x68u8, 0x61, 0x72, 0x64, 0x77, 0x61, 0x72, 0x65]
}

/// Holds of a piece of the file that contains the word `hardware`.
pub open spec fn mentions_hardware() -> spec_fn(Seq<u8>) -> bool {
    |piece: Seq<u8>| contains_bytes(piece, hardware_word())
}

/// Holds of a line that contains `{`.
pub open spec fn opens_block() -> spec_fn(Seq<u8>) -> bool {
    |line: Seq<u8>| contains_bytes(line, seq![OPEN_BRACE])
}

/// The lines that name a lease's address: the `}`-separated blocks that mention
/// `hardware` are joined together, cut into lines, and those holding `{` kept.
pub open spec fn address_lines(leases: Seq<u8>) -> Seq<Seq<u8>> {
    split_on(split_on(leases, CLOSE_BRACE).filter(mentions_hardware()).flatten(), NEWLINE).filter(opens_block())
}

/// An address line ends in `{`, and what is left before it has at least six
/// bytes with a character boundary after the sixth.
pub open spec fn address_line_ok(line: Seq<u8>) -> bool {
    &&& line.len() >= 7
    &&& line.last() == OPEN_BRACE
    &&& (line.len() == 7 || !is_continuation_byte(line[6]))
}

/// The address named on an address line: the text between its sixth byte and
/// the closing `{`, trimmed.
pub open spec fn address_text(line: Seq<u8>) -> Seq<char> {
    trimmed(decode_utf8(line.subrange(6, line.len() - 1)))
}

/// Law: the address read from an address line is the whole text between its
/// sixth byte and the closing `{`, with only the whitespace around it dropped.
/// Any line that ends in `{` with at least six bytes before it, cut on a
/// character boundary after the sixth, is an address line that can be read.
pub proof fn law_address_is_whole_trimmed_text(line: Seq<u8>)
    requires
        line.len() >= 7,
        line.last() == OPEN_BRACE,
        line.len() == 7 || !is_continuation_byte(line[6]),
    ensures
        address_line_ok(line),
        exists|a: int, b: int|
            0 <= a <= b <= decode_utf8(line.subrange(6, line.len() - 1)).len()
                && #[trigger] decode_utf8(line.subrange(6, line.len() - 1)).subrange(a, b) == address_text(line)
                && (forall|j: int|
                0 <= j < a ==> is_white_space(#[trigger] decode_utf8(line.subrange(6, line.len() - 1))[j]))
                && (forall|j: int|
                b <= j < decode_utf8(line.subrange(6, line.len() - 1)).len() ==> is_white_space(
                    #[trigger] decode_utf8(line.subrange(6, line.len() - 1))[j],
                )) && (a < b ==> !is_white_space(decode_utf8(line.subrange(6, line.len() - 1))[a])
                && !is_white_space(decode_utf8(line.subrange(6, line.len() - 1))[b - 1])),
{
    law_trim_drops_only_outer_whitespace(decode_utf8(line.subrange(6, line.len() - 1)));
}

/// Every address line of the file is well formed.
pub open spec fn addresses_ok(leases: Seq<u8>) -> bool {
    forall|i: int| 0 <= i < address_lines(leases).len() ==> #[trigger] address_line_ok(address_lines(leases)[i])
}

/// The addresses of the file, in file order.
pub open spec fn address_texts(leases: Seq<u8>) -> Seq<Seq<char>> {
    address_lines(leases).map_values(|line: Seq<u8>| address_text(line))
}

/// The lines of the lease file that mention `hardware`.
pub open spec fn hardware_lines(leases: Seq<u8>) -> Seq<Seq<u8>> {
    split_on(leases, NEWLINE).filter(mentions_hardware())
}

/// A hardware line has at least 37 bytes, with character boundaries at 20 and 37.
pub open spec fn hardware_line_ok(line: Seq<u8>) -> bool {
    &&& line.len() >= 37
    &&& !is_continuation_byte(line[20])
    &&& (line.len() == 37 || !is_continuation_byte(line[37]))
}

/// The MAC address on a hardware line: its bytes 20 to 37.
pub open spec fn hardware_text(line: Seq<u8>) -> Seq<char> {
    decode_utf8(line.subrange(20, 37))
}

/// Every hardware line of the file is well formed.
pub open spec fn hardware_ok(leases: Seq<u8>) -> bool {
    forall|i: int| 0 <= i < hardware_lines(leases).len() ==> #[trigger] hardware_line_ok(hardware_lines(leases)[i])
}

/// The MAC addresses of the file, in file order.
pub open spec fn hardware_texts(leases: Seq<u8>) -> Seq<Seq<char>> {
    hardware_lines(leases).map_values(|line: Seq<u8>| hardware_text(line))
}

proof fn lemma_filter_step(s: Seq<Seq<u8>>, i: int, pred: spec_fn(Seq<u8>) -> bool)
    requires
        0 <= i < s.len(),
    ensures
        s.take(i + 1).filter(pred) == if pred(s[i]) {
            s.take(i).filter(pred).push(s[i])
        } else {
            s.take(i).filter(pred)
        },
{
    assert(s.take(i + 1) =~= s.take(i).push(s[i]));
    s.take(i).lemma_filter_push(s[i], pred);
}

proof fn lemma_filtered_member(s: Seq<Seq<u8>>, i: int, pred: spec_fn(Seq<u8>) -> bool)
    requires
        0 <= i < s.len(),
        pred(s[i]),
    ensures
        exists|k: int| 0 <= k < s.filter(pred).len() && s.filter(pred)[k] == s[i],
{
    s.lemma_filter_contains(pred, i);
}

/// The `}`-separated blocks of the lease file that mention `hardware`, joined.
fn joined_hardware_blocks(leases: &str) -> (joined: String)
    ensures
        encode_utf8(joined@) == split_on(leases.spec_bytes(), CLOSE_BRACE).filter(mentions_hardware()).flatten(),
{
    let hardware: [u8; 8] = [0x68u8, 0x61, 0x72, 0x64, 0x77, 0x61, 0x72, 0x65];
    assert(hardware@ =~= hardware_word());
    let blocks = split_text(leases, CLOSE_BRACE);
    let ghost all = split_on(leases.spec_bytes(), CLOSE_BRACE);
    let mut joined = String::new();
    let mut i: usize = 0;
    while i < blocks.len()
        invariant
            blocks.len() == all.len(),
            forall|j: int| 0 <= j < blocks.len() ==> #[trigger] blocks[j].spec_bytes() == all[j],
            0 <= i <= blocks.len(),
            hardware@ == hardware_word(),
            encode_utf8(joined@) == all.take(i as int).filter(mentions_hardware()).flatten(),
        decreases blocks.len() - i,
    {
        let block = blocks[i];
        let keep = bytes_contain(block.as_bytes(), &hardware);
        proof {
            lemma_filter_step(all, i as int, mentions_hardware());
        }
        if keep {
            let ghost before = joined@;
            joined.append(block);
            proof {
                lemma_encode_utf8_concat(before, block@);
                all.take(i as int).filter(mentions_hardware()).lemma_flatten_push(all[i as int]);
            }
        }
        i = i + 1;
    }
    assert(all.take(blocks.len() as int) =~= all);
    joined
}

/// The address named on one address line, or `None` when the line is malformed.
fn address_of_line(line: &str) -> (r: Option<String>)
    ensures
        match r {
            Some(a) => address_line_ok(line.spec_bytes()) && a@ == address_text(line.spec_bytes()),
            None => !address_line_ok(line.spec_bytes()),
        },
{
    let lb = line.as_bytes();
    let ghost l = line.spec_bytes();
    let n = lb.len();
    if !(n >= 7 && lb[n - 1] == OPEN_BRACE && (n == 7 || !(0x80 <= lb[6] && lb[6] <= 0xbf))) {
        return None;
    }
    proof {
        encode_utf8_valid_utf8(line@);
        lemma_ascii_boundary(l, n - 1);
    }
    let (head, _) = line.split_at(n - 1);
    proof {
        encode_utf8_valid_utf8(head@);
        assert(head.spec_bytes() =~= l.take(n - 1));
        lemma_ascii_boundary(head.spec_bytes(), 6);
    }
    let (_, tail) = head.split_at(6);
    proof {
        assert(tail.spec_bytes() =~= l.subrange(6, n - 1));
        encode_utf8_decode_utf8(tail@);
    }
    let address = trim_text(tail);
    Some(address.to_owned())
}

/// The trimmed addresses named in a lease file, in file order; `None` when
/// some address line is malformed.
pub fn lease_addresses(leases: &str) -> (r: Option<Vec<String>>)
    ensures
        match r {
            Some(v) => addresses_ok(leases.spec_bytes()) && v.deep_view() == address_texts(leases.spec_bytes()),
            None => !addresses_ok(leases.spec_bytes()),
        },
{
    let joined = joined_hardware_blocks(leases);
    let text = joined.as_str();
    let lines = split_text(text, NEWLINE);
    let ghost all = split_on(text.spec_bytes(), NEWLINE);
    let ghost b = leases.spec_bytes();
    assert(address_lines(b) == all.filter(opens_block()));
    let brace: [u8; 1] = [OPEN_BRACE];
    assert(brace@ =~= seq![OPEN_BRACE]);
    let mut out: Vec<String> = Vec::new();
    let mut i: usize = 0;
    while i < lines.len()
        invariant
            lines.len() == all.len(),
            forall|j: int| 0 <= j < lines.len() ==> #[trigger] lines[j].spec_bytes() == all[j],
            0 <= i <= lines.len(),
            brace@ == seq![OPEN_BRACE],
            b == leases.spec_bytes(),
            address_lines(b) == all.filter(opens_block()),
            out.len() == all.take(i as int).filter(opens_block()).len(),
            forall|k: int| 0 <= k < out.len() ==> #[trigger] address_line_ok(all.take(i as int).filter(opens_block())[k]),
            forall|k: int| 0 <= k < out.len() ==> #[trigger] out@[k]@ == address_text(all.take(i as int).filter(opens_block())[k]),
        decreases lines.len() - i,
    {
        let line = lines[i];
        let ghost l = all[i as int];
        proof {
            lemma_filter_step(all, i as int, opens_block());
        }
        if bytes_contain(line.as_bytes(), &brace) {
            match address_of_line(line) {
                Some(address) => {
                    out.push(address);
                }
                None => {
                    proof {
                        lemma_filtered_member(all, i as int, opens_block());
                        let k = choose|k: int| 0 <= k < all.filter(opens_block()).len() && all.filter(opens_block())[k] == l;
                        assert(!address_line_ok(address_lines(b)[k]));
                    }
                    return None;
                }
            }
        }
        i = i + 1;
    }
    proof {
        assert(all.take(lines.len() as int) =~= all);
        assert(out.deep_view().len() == address_texts(b).len());
        assert forall|k: int| 0 <= k < out.deep_view().len() implies out.deep_view()[k] == address_texts(b)[k] by {
            assert(out@[k]@ == address_text(address_lines(b)[k]));
        }
        assert(out.deep_view() =~= address_texts(b));
    }
    Some(out)
}

/// The MAC address on one hardware line, or `None` when the line is too short
/// or cut inside a character.
fn hardware_of_line(line: &str) -> (r: Option<String>)
    ensures
        match r {
            Some(m) => hardware_line_ok(line.spec_bytes()) && m@ == hardware_text(line.spec_bytes()),
            None => !hardware_line_ok(line.spec_bytes()),
        },
{
    let lb = line.as_bytes();
    let ghost l = line.spec_bytes();
    let n = lb.len();
    if !(n >= 37 && !(0x80 <= lb[20] && lb[20] <= 0xbf) && (n == 37 || !(0x80 <= lb[37] && lb[37] <= 0xbf))) {
        return None;
    }
    proof {
        encode_utf8_valid_utf8(line@);
        lemma_ascii_boundary(l, 37);
    }
    let (head, _) = line.split_at(37);
    proof {
        encode_utf8_valid_utf8(head@);
        assert(head.spec_bytes() =~= l.take(37));
        lemma_ascii_boundary(head.spec_bytes(), 20);
    }
    let (_, mac) = head.split_at(20);
    proof {
        assert(mac.spec_bytes() =~= l.subrange(20, 37));
        encode_utf8_decode_utf8(mac@);
    }
    Some(mac.to_owned())
}

/// The MAC addresses on the lease file's hardware lines, in file order;
/// `None` when some hardware line is malformed.
pub fn lease_hardware(leases: &str) -> (r: Option<Vec<String>>)
    ensures
        match r {
            Some(v) => hardware_ok(leases.spec_bytes()) && v.deep_view() == hardware_texts(leases.spec_bytes()),
            None => !hardware_ok(leases.spec_bytes()),
        },
{
    let hardware: [u8; 8] = [0x68u8, 0x61, 0x72, 0x64, 0x77, 0x61, 0x72, 0x65];
    assert(hardware@ =~= hardware_word());
    let lines = split_text(leases, NEWLINE);
    let ghost all = split_on(leases.spec_bytes(), NEWLINE);
    let ghost b = leases.spec_bytes();
    let mut out: Vec<String> = Vec::new();
    let mut i: usize = 0;
    while i < lines.len()
        invariant
            lines.len() == all.len(),
            forall|j: int| 0 <= j < lines.len() ==> #[trigger] lines[j].spec_bytes() == all[j],
            0 <= i <= lines.len(),
            hardware@ == hardware_word(),
            b == leases.spec_bytes(),
            hardware_lines(b) == all.filter(mentions_hardware()),
            out.len() == all.take(i as int).filter(mentions_hardware()).len(),
            forall|k: int| 0 <= k < out.len() ==> #[trigger] hardware_line_ok(all.take(i as int).filter(mentions_hardware())[k]),
            forall|k: int| 0 <= k < out.len() ==> #[trigger] out@[k]@ == hardware_text(all.take(i as int).filter(mentions_hardware())[k]),
        decreases lines.len() - i,
    {
        let line = lines[i];
        let ghost l = all[i as int];
        proof {
            lemma_filter_step(all, i as int, mentions_hardware());
        }
        if bytes_contain(line.as_bytes(), &hardware) {
            match hardware_of_line(line) {
                Some(mac) => {
                    out.push(mac);
                }
                None => {
                    proof {
                        lemma_filtered_member(all, i as int, mentions_hardware());
                        let k = choose|k: int| 0 <= k < all.filter(mentions_hardware()).len() && all.filter(mentions_hardware())[k] == l;
                        assert(!hardware_line_ok(hardware_lines(b)[k]));
                    }
                    return None;
                }
            }
        }
        i = i + 1;
    }
    proof {
        assert(all.take(lines.len() as int) =~= all);
        assert(out.deep_view().len() == hardware_texts(b).len());
        assert forall|k: int| 0 <= k < out.deep_view().len() implies out.deep_view()[k] == hardware_texts(b)[k] by {
            assert(out@[k]@ == hardware_text(hardware_lines(b)[k]));
        }
        assert(out.deep_view() =~= hardware_texts(b));
    }
    Some(out)
}

/// Index of the first text equal to `query`, or `texts.len()` when there is none.
pub open spec fn first_match(texts: Seq<Seq<char>>, query: Seq<char>) -> int
    decreases texts.len(),
{
    if texts.len() == 0 {
        0
    } else if texts[0] == query {
        0
    } else {
        1 + first_match(texts.drop_first(), query)
    }
}

/// `first_match` is the first index holding the query.
pub proof fn lemma_first_match_is(texts: Seq<Seq<char>>, query: Seq<char>, k: int)
    requires
        0 <= k <= texts.len(),
        forall|j: int| 0 <= j < k ==> texts[j] != query,
        k == texts.len() || texts[k] == query,
    ensures
        first_match(texts, query) == k,
    decreases texts.len(),
{
    if texts.len() > 0 && texts[0] != query {
        lemma_first_match_is(texts.drop_first(), query, k - 1);
    }
}

proof fn lemma_first_match_found(texts: Seq<Seq<char>>, query: Seq<char>)
    ensures
        0 <= first_match(texts, query) <= texts.len(),
        first_match(texts, query) < texts.len() <==> texts.contains(query),
        first_match(texts, query) < texts.len() ==> texts[first_match(texts, query)] == query,
        forall|j: int| 0 <= j < first_match(texts, query) ==> texts[j] != query,
    decreases texts.len(),
{
    if texts.len() > 0 && texts[0] != query {
        let rest = texts.drop_first();
        lemma_first_match_found(rest, query);
        assert forall|j: int| 0 <= j < first_match(texts, query) implies texts[j] != query by {
            if j > 0 {
                assert(texts[j] == rest[j - 1]);
            }
        }
        if texts.contains(query) {
            let k = choose|k: int| 0 <= k < texts.len() && texts[k] == query;
            assert(rest[k - 1] == query);
        }
        if rest.contains(query) {
            let k = choose|k: int| 0 <= k < rest.len() && rest[k] == query;
            assert(texts[k + 1] == query);
        }
    } else if texts.len() > 0 {
        assert(texts[0] == query);
    }
}

/// Law: looking up by MAC answers with the address that stands at the
/// position of the first hardware line naming that MAC, and answers exactly
/// when some hardware line names it.
pub proof fn law_mac_lookup_position(addrs: Seq<Seq<char>>, macs: Seq<Seq<char>>, mac: Seq<char>)
    requires
        addr_lookup_defined(addrs, macs, None, Some(mac)),
    ensures
        addr_lookup(addrs, macs, None, Some(mac)) is Some <==> macs.contains(mac),
        addr_lookup(addrs, macs, None, Some(mac)) matches Some(a) ==> exists|k: int|
            0 <= k < macs.len() && k < addrs.len() && macs[k] == mac && addrs[k] == a
                && forall|j: int| 0 <= j < k ==> macs[j] != mac,
{
    lemma_first_match_found(macs, mac);
    let k = first_match(macs, mac);
    if k < macs.len() {
        assert(macs[k] == mac && addrs[k] == addr_lookup(addrs, macs, None, Some(mac))->0);
    }
}

/// Law: looking up by address answers with the MAC that stands at the position
/// of the first lease naming that address, and answers exactly when some lease
/// names it.
pub proof fn law_address_lookup_position(addrs: Seq<Seq<char>>, macs: Seq<Seq<char>>, ip: Seq<char>)
    requires
        addr_lookup_defined(addrs, macs, Some(ip), None),
    ensures
        addr_lookup(addrs, macs, Some(ip), None) is Some <==> addrs.contains(ip),
        addr_lookup(addrs, macs, Some(ip), None) matches Some(m) ==> exists|k: int|
            0 <= k < addrs.len() && k < macs.len() && addrs[k] == ip && macs[k] == m
                && forall|j: int| 0 <= j < k ==> addrs[j] != ip,
{
    lemma_first_match_found(addrs, ip);
    let k = first_match(addrs, ip);
    if k < addrs.len() {
        assert(addrs[k] == ip && macs[k] == addr_lookup(addrs, macs, Some(ip), None)->0);
    }
}

/// What an address lookup answers: given an address, the MAC at the position
/// of the first equal address; given only a MAC, the address at the position
/// of the first equal MAC.
pub open spec fn addr_lookup(
    addrs: Seq<Seq<char>>,
    macs: Seq<Seq<char>>,
    ip: Option<Seq<char>>,
    mac: Option<Seq<char>>,
) -> Option<Seq<char>> {
    match ip {
        Some(q) => {
            let k = first_match(addrs, q);
            if k < addrs.len() { Some(macs[k]) } else { None }
        },
        None => {
            let k = first_match(macs, mac->0);
            if k < macs.len() { Some(addrs[k]) } else { None }
        },
    }
}

/// A lookup is defined when a query is given and the first match has an entry
/// at its position in the other list.
pub open spec fn addr_lookup_defined(
    addrs: Seq<Seq<char>>,
    macs: Seq<Seq<char>>,
    ip: Option<Seq<char>>,
    mac: Option<Seq<char>>,
) -> bool {
    match ip {
        Some(q) => first_match(addrs, q) < addrs.len() ==> first_match(addrs, q) < macs.len(),
        None => mac is Some && (first_match(macs, mac->0) < macs.len() ==> first_match(macs, mac->0) < addrs.len()),
    }
}

/// Whether two texts are equal.
pub fn text_eq(a: &str, b: &str) -> (eq: bool)
    ensures
        eq == (a@ == b@),
{
    let x = a.as_bytes();
    let y = b.as_bytes();
    proof {
        lemma_encode_utf8_injective(a@, b@);
    }
    if x.len() != y.len() {
        return false;
    }
    let mut i: usize = 0;
    while i < x.len()
        invariant
            x@.len() == y@.len(),
            (x@ == y@) == (a@ == b@),
            i <= x@.len(),
            forall|j: int| 0 <= j < i ==> x@[j] == y@[j],
        decreases x@.len() - i,
    {
        if x[i] != y[i] {
            assert(x@ != y@);
            return false;
        }
        i = i + 1;
    }
    assert(x@ =~= y@);
    true
}

/// Index of the first text in `texts` equal to `query`, or `texts.len()`.
fn position_of(texts: &Vec<String>, query: &str) -> (k: usize)
    ensures
        k == first_match(texts.deep_view(), query@),
{
    let mut k: usize = 0;
    while k < texts.len()
        invariant
            k <= texts.len(),
            forall|j: int| 0 <= j < k ==> texts.deep_view()[j] != query@,
        decreases texts.len() - k,
    {
        if text_eq(texts[k].as_str(), query) {
            proof {
                lemma_first_match_is(texts.deep_view(), query@, k as int);
            }
            return k;
        }
        k = k + 1;
    }
    proof {
        lemma_first_match_is(texts.deep_view(), query@, k as int);
    }
    k
}

/// Looks an address up in the lease lists: provide an IP address to get its
/// MAC, or a MAC to get its IP address.
pub fn find_addr(addrs: &Vec<String>, macs: &Vec<String>, ip: Option<&str>, mac: Option<&str>) -> (r: Option<String>)
    requires
        addr_lookup_defined(addrs.deep_view(), macs.deep_view(), ip.deep_view(), mac.deep_view()),
    ensures
        r.deep_view() == addr_lookup(addrs.deep_view(), macs.deep_view(), ip.deep_view(), mac.deep_view()),
{
    match ip {
        Some(q) => {
            let k = position_of(addrs, q);
            if k < addrs.len() {
                Some(macs[k].clone())
            } else {
                None
            }
        },
        None => {
            let m = match mac {
                Some(m) => m,
                None => {
                    proof {
                        assert(false);
                    }
                    return None;
                },
            };
            let k = position_of(macs, m);
            if k < macs.len() {
                Some(addrs[k].clone())
            } else {
                None
            }
        },
    }
}

/// Why a lease lookup cannot be answered.
#[derive(Debug, Clone, Copy, PartialEq, Eq, Structural)]
pub enum LeaseError {
    /// An address line does not end in `{` or is cut inside a character.
    MalformedAddressLine,
    /// A hardware line is shorter than 37 bytes or is cut inside a character.
    MalformedHardwareLine,
    /// Neither an address nor a MAC was given.
    MissingQuery,
    /// The matching address has no hardware line at its position.
    MissingHardware,
    /// The matching MAC has no address line at its position.
    MissingAddress,
}

/// Both lists of the lease file can be read and the query can be answered.
pub open spec fn lease_lookup_defined(leases: Seq<u8>, ip: Option<Seq<char>>, mac: Option<Seq<char>>) -> bool {
    &&& addresses_ok(leases)
    &&& hardware_ok(leases)
    &&& addr_lookup_defined(address_texts(leases), hardware_texts(leases), ip, mac)
}

/// Finds, in the text of a DHCP lease file, the MAC address for the given IP
/// address, or (given only a MAC) the IP address for that MAC.
pub fn get_addr(leases: &str, ip: Option<&str>, mac: Option<&str>) -> (r: Option<String>)
    requires
        lease_lookup_defined(leases.spec_bytes(), ip.deep_view(), mac.deep_view()),
    ensures
        r.deep_view() == addr_lookup(
            address_texts(leases.spec_bytes()),
            hardware_texts(leases.spec_bytes()),
            ip.deep_view(),
            mac.deep_view(),
        ),
{
    let addrs = match lease_addresses(leases) {
        Some(v) => v,
        None => {
            proof {
                assert(false);
            }
            return None;
        },
    };
    let macs = match lease_hardware(leases) {
        Some(v) => v,
        None => {
            proof {
                assert(false);
            }
            return None;
        },
    };
    find_addr(&addrs, &macs, ip, mac)
}

/// Like `get_addr`, on every lease file and query: reports which of the
/// conditions of `get_addr` fails, in the order in which the file is read.
pub fn lookup_lease(leases: &str, ip: Option<&str>, mac: Option<&str>) -> (r: Result<Option<String>, LeaseError>)
    ensures
        match r {
            Ok(found) => lease_lookup_defined(leases.spec_bytes(), ip.deep_view(), mac.deep_view())
                && found.deep_view() == addr_lookup(
                    address_texts(leases.spec_bytes()),
                    hardware_texts(leases.spec_bytes()),
                    ip.deep_view(),
                    mac.deep_view(),
                ),
            Err(LeaseError::MalformedAddressLine) => !addresses_ok(leases.spec_bytes()),
            Err(LeaseError::MalformedHardwareLine) => addresses_ok(leases.spec_bytes())
                && !hardware_ok(leases.spec_bytes()),
            Err(LeaseError::MissingQuery) => addresses_ok(leases.spec_bytes()) && hardware_ok(leases.spec_bytes())
                && ip is None && mac is None,
            Err(LeaseError::MissingHardware) => addresses_ok(leases.spec_bytes()) && hardware_ok(leases.spec_bytes())
                && ip is Some
                && first_match(address_texts(leases.spec_bytes()), ip.deep_view()->0) < address_texts(leases.spec_bytes()).len()
                && first_match(address_texts(leases.spec_bytes()), ip.deep_view()->0) >= hardware_texts(leases.spec_bytes()).len(),
            Err(LeaseError::MissingAddress) => addresses_ok(leases.spec_bytes()) && hardware_ok(leases.spec_bytes())
                && ip is None && mac is Some
                && first_match(hardware_texts(leases.spec_bytes()), mac.deep_view()->0) < hardware_texts(leases.spec_bytes()).len()
                && first_match(hardware_texts(leases.spec_bytes()), mac.deep_view()->0) >= address_texts(leases.spec_bytes()).len(),
        },
{
    let addrs = match lease_addresses(leases) {
        Some(v) => v,
        None => {
            return Err(LeaseError::MalformedAddressLine);
        },
    };
    let macs = match lease_hardware(leases) {
        Some(v) => v,
        None => {
            return Err(LeaseError::MalformedHardwareLine);
        },
    };
    match ip {
        Some(q) => {
            let k = position_of(&addrs, q);
            if k < addrs.len() && k >= macs.len() {
                return Err(LeaseError::MissingHardware);
            }
        },
        None => match mac {
            None => {
                return Err(LeaseError::MissingQuery);
            },
            Some(m) => {
                let k = position_of(&macs, m);
                if k < macs.len() && k >= addrs.len() {
                    return Err(LeaseError::MissingAddress);
                }
            },
        },
    }
    Ok(find_addr(&addrs, &macs, ip, mac))
}

/// The two firewall rules that cut a host off: traffic to it and from it is
/// dropped. Blocking inserts them into the FORWARD chain; unblocking deletes
/// the same two.
pub fn drop_rules(ip: &str) -> (rules: (String, String))
    ensures
        rules.0@ == "-d "@ + ip@ + " -j DROP"@,
        rules.1@ == "-s "@ + ip@ + " -j DROP"@,
{
    let mut to_host = String::from_str("-d ");
    to_host.append(ip);
    to_host.append(" -j DROP");
    let mut from_host = String::from_str("-s ");
    from_host.append(ip);
    from_host.append(" -j DROP");
    (to_host, from_host)
}

/// Blocking inserts the rules only when the rule for traffic to the host is
/// not in the chain yet.
pub fn rules_needed(already_present: bool) -> (insert: bool)
    ensures
        insert == !already_present,
{
    !already_present
}

} // verus!
