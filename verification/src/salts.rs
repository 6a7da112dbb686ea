//! The identifiers that a replay download URL carries.

use crate::text::{
    chars_of, digits_of, ends_with, find_char, find_sub, has_prefix, has_suffix,
    is_digit, last_position, lemma_digits_round_trip, lemma_last_position_unique, lemma_position,
    lemma_position_unique, lemma_search_found, occurs_at, parse_bounded, parse_unsigned, position,
    rfind_char, search, slice_of, starts_with,
};
use vstd::prelude::*;

verus! {

/// The identifiers of one match file: exactly one of the two salts is
/// set in a record that `Salts::from_url` returns.
#[derive(Debug, Clone, Copy, PartialEq, Eq, Hash, Structural)]
pub struct Salts {
    pub match_id: u64,
    pub cluster_id: u32,
    pub metadata_salt: Option<u32>,
    pub replay_salt: Option<u32>,
}

/// `url` up to its first question mark.
pub open spec fn without_query(url: Seq<char>) -> Seq<char> {
    url.take(position(url, '?'))
}

/// The record that the cluster digits and the file stem
/// `<match_id>_<salt>` write, the salt filed under the kind given.
pub open spec fn record_of(cluster: Seq<char>, stem: Seq<char>, is_metadata: bool) -> Option<
    Salts,
> {
    let u = position(stem, '_');
    if u >= stem.len() {
        None
    } else {
        match (
            parse_unsigned(cluster, u32::MAX as nat),
            parse_unsigned(stem.take(u), u64::MAX as nat),
            parse_unsigned(stem.skip(u + 1), u32::MAX as nat),
        ) {
            (Some(c), Some(m), Some(s)) => Some(
                Salts {
                    match_id: m as u64,
                    cluster_id: c as u32,
                    metadata_salt: if is_metadata {
                        Some(s as u32)
                    } else {
                        None
                    },
                    replay_salt: if is_metadata {
                        None
                    } else {
                        Some(s as u32)
                    },
                },
            ),
            _ => None,
        }
    }
}

/// The record of the file name `name` under the cluster digits `cluster`.
pub open spec fn name_record(cluster: Seq<char>, name: Seq<char>) -> Option<Salts> {
    if ends_with(name, ".meta.bz2"@) {
        record_of(cluster, name.take(name.len() - ".meta.bz2"@.len()), true)
    } else if ends_with(name, ".dem.bz2"@) {
        record_of(cluster, name.take(name.len() - ".dem.bz2"@.len()), false)
    } else {
        None
    }
}

/// The record that `url` writes, where it follows the template
/// `http://replay<cluster_id>.valve.net/<anything>/<match_id>_<salt>.<meta|dem>.bz2`,
/// a query string ignored.
pub open spec fn url_record(url: Seq<char>) -> Option<Salts> {
    let base = without_query(url);
    if !starts_with(base, "http://replay"@) {
        None
    } else {
        let rest = base.skip("http://replay"@.len() as int);
        match search(rest, ".valve.net/"@) {
            None => None,
            Some(i) => {
                let remaining = rest.skip(i + ".valve.net/"@.len());
                let slash = last_position(remaining, '/');
                if slash < 0 {
                    None
                } else {
                    name_record(rest.take(i), remaining.skip(slash + 1))
                }
            },
        }
    }
}

/// A query string makes no difference to the record of a URL.
pub proof fn lemma_query_ignored(url: Seq<char>, query: Seq<char>)
    requires
        position(url, '?') == url.len(),
    ensures
        url_record(url + seq!['?'] + query) == url_record(url),
        url_record(without_query(url)) == url_record(url),
{
    let long = url + seq!['?'] + query;
    lemma_position(url, '?');
    assert forall|j: int| 0 <= j < url.len() implies long[j] != '?' by {
        assert(long[j] == url[j]);
    }
    lemma_position_unique(long, '?', url.len() as int);
    assert(without_query(long) =~= url);
    assert(without_query(url) =~= url);
}

/// In every record read from a URL exactly one salt is set: the metadata
/// salt where the file name ends in `.meta.bz2`, the replay salt where it
/// ends in `.dem.bz2`.
pub proof fn lemma_suffix_selects_salt(url: Seq<char>)
    ensures
        match url_record(url) {
            Some(r) => {
                &&& r.metadata_salt is Some <==> r.replay_salt is None
                &&& r.metadata_salt is Some <==> ends_with(without_query(url), ".meta.bz2"@)
                &&& r.replay_salt is Some <==> ends_with(without_query(url), ".dem.bz2"@)
            },
            None => true,
        },
{
    if let Some(r) = url_record(url) {
        let base = without_query(url);
        let rest = base.skip("http://replay"@.len() as int);
        let i = search(rest, ".valve.net/"@).unwrap();
        let remaining = rest.skip(i + ".valve.net/"@.len());
        let slash = last_position(remaining, '/');
        let name = remaining.skip(slash + 1);
        let k = base.len() - name.len();
        crate::text::lemma_search_from(rest, ".valve.net/"@, 0);
        crate::text::lemma_last_position(remaining, '/');
        assert(name =~= base.skip(k));
        reveal_strlit(".meta.bz2");
        reveal_strlit(".dem.bz2");
        let meta = ".meta.bz2"@;
        let dem = ".dem.bz2"@;
        if ends_with(name, meta) {
            assert(base.skip(base.len() - meta.len()) =~= name.skip(name.len() - meta.len()));
            assert(base.skip(base.len() - meta.len())[1] == 'm');
            assert(base.skip(base.len() - dem.len())[0] == 'm');
        } else {
            assert(ends_with(name, dem));
            assert(base.skip(base.len() - dem.len()) =~= name.skip(name.len() - dem.len()));
            assert(base.skip(base.len() - dem.len())[0] == '.');
            if ends_with(base, meta) {
                assert(base.skip(base.len() - meta.len())[1] == 'm');
            }
        }
    }
}

/// The file name that writes the match id and the salt of `record`.
pub open spec fn name_of(record: Salts) -> Seq<char> {
    digits_of(record.match_id as nat) + seq!['_'] + match record.metadata_salt {
        Some(salt) => digits_of(salt as nat) + ".meta.bz2"@,
        None => digits_of(record.replay_salt.unwrap_or(0) as nat) + ".dem.bz2"@,
    }
}

/// The URL that writes `record`, the file standing under the path `dir`.
pub open spec fn url_of(record: Salts, dir: Seq<char>) -> Seq<char> {
    "http://replay"@ + digits_of(record.cluster_id as nat) + ".valve.net/"@ + dir + seq!['/']
        + name_of(record)
}

proof fn lemma_digits_hold_no(n: nat, c: char)
    requires
        !is_digit(c),
    ensures
        forall|i: int| 0 <= i < digits_of(n).len() ==> digits_of(n)[i] != c,
{
    lemma_digits_round_trip(n, n);
    assert forall|i: int| 0 <= i < digits_of(n).len() implies digits_of(n)[i] != c by {
        assert(is_digit(digits_of(n)[i]));
    }
}

/// The file name of a record with exactly one salt reads back as the record.
proof fn lemma_name_reads_back(record: Salts)
    requires
        record.metadata_salt is Some <==> record.replay_salt is None,
    ensures
        name_record(digits_of(record.cluster_id as nat), name_of(record)) == Some(record),
        forall|i: int| 0 <= i < name_of(record).len() ==> name_of(record)[i] != '/' && name_of(
            record,
        )[i] != '?',
{
    reveal_strlit(".meta.bz2");
    reveal_strlit(".dem.bz2");
    let cluster = digits_of(record.cluster_id as nat);
    let m = digits_of(record.match_id as nat);
    let is_meta = record.metadata_salt is Some;
    let salt: u32 = if is_meta {
        record.metadata_salt->0
    } else {
        record.replay_salt->0
    };
    let sd = digits_of(salt as nat);
    let suffix = if is_meta {
        ".meta.bz2"@
    } else {
        ".dem.bz2"@
    };
    let stem = m + seq!['_'] + sd;
    let name = name_of(record);
    lemma_digits_round_trip(record.cluster_id as nat, u32::MAX as nat);
    lemma_digits_round_trip(record.match_id as nat, u64::MAX as nat);
    lemma_digits_round_trip(salt as nat, u32::MAX as nat);
    lemma_digits_hold_no(record.match_id as nat, '_');
    lemma_digits_hold_no(record.match_id as nat, '/');
    lemma_digits_hold_no(record.match_id as nat, '?');
    lemma_digits_hold_no(salt as nat, '/');
    lemma_digits_hold_no(salt as nat, '?');
    assert(name =~= stem + suffix);
    assert(name.skip(name.len() - suffix.len()) =~= suffix);
    assert(name.take(name.len() - suffix.len()) =~= stem);
    if !is_meta {
        assert(name.skip(name.len() - ".meta.bz2"@.len())[1] == '.');
        assert(".meta.bz2"@[1] == 'm');
        assert(!ends_with(name, ".meta.bz2"@));
    }
    assert forall|j: int| 0 <= j < m.len() implies stem[j] != '_' by {
        assert(stem[j] == m[j]);
    }
    assert(stem[m.len() as int] == '_');
    lemma_position_unique(stem, '_', m.len() as int);
    assert(stem.take(m.len() as int) =~= m);
    assert(stem.skip(m.len() as int + 1) =~= sd);
    assert(record_of(cluster, stem, is_meta) == Some(record));
    assert forall|i: int| 0 <= i < name.len() implies name[i] != '/' && name[i] != '?' by {
        if i < m.len() {
            assert(name[i] == m[i]);
        } else if i == m.len() {
            assert(name[i] == '_');
        } else if i < stem.len() {
            assert(name[i] == sd[i - m.len() - 1]);
        } else {
            assert(name[i] == suffix[i - stem.len()]);
        }
    }
}

/// A record with exactly one salt, written as a URL under any path that
/// holds no question mark, reads back as itself.
pub proof fn lemma_written_url_reads_back(record: Salts, dir: Seq<char>)
    requires
        record.metadata_salt is Some <==> record.replay_salt is None,
        forall|i: int| 0 <= i < dir.len() ==> dir[i] != '?',
    ensures
        url_record(url_of(record, dir)) == Some(record),
{
    reveal_strlit("http://replay");
    reveal_strlit(".valve.net/");
    let prefix = "http://replay"@;
    let domain = ".valve.net/"@;
    let cluster = digits_of(record.cluster_id as nat);
    let name = name_of(record);
    let url = url_of(record, dir);
    let rest = cluster + domain + dir + seq!['/'] + name;
    let remaining = dir + seq!['/'] + name;
    lemma_name_reads_back(record);
    lemma_digits_round_trip(record.cluster_id as nat, u32::MAX as nat);
    lemma_digits_hold_no(record.cluster_id as nat, '?');
    lemma_digits_hold_no(record.cluster_id as nat, '.');
    assert(url =~= prefix + rest);
    assert(rest =~= cluster + domain + remaining);
    assert forall|j: int| 0 <= j < url.len() implies url[j] != '?' by {
        if j < prefix.len() {
            assert(url[j] == prefix[j]);
        } else {
            let k = j - prefix.len();
            assert(url[j] == rest[k]);
            if k < cluster.len() {
                assert(rest[k] == cluster[k]);
            } else if k < cluster.len() + domain.len() {
                assert(rest[k] == domain[k - cluster.len()]);
            } else {
                let r = k - cluster.len() - domain.len();
                assert(rest[k] == remaining[r]);
                if r < dir.len() {
                    assert(remaining[r] == dir[r]);
                } else if r == dir.len() {
                    assert(remaining[r] == '/');
                } else {
                    assert(remaining[r] == name[r - dir.len() - 1]);
                }
            }
        }
    }
    lemma_position_unique(url, '?', url.len() as int);
    assert(without_query(url) =~= url);
    assert(url.take(prefix.len() as int) =~= prefix);
    assert(url.skip(prefix.len() as int) =~= rest);
    assert(rest.subrange(cluster.len() as int, (cluster.len() + domain.len()) as int) =~= domain);
    assert forall|j: int| 0 <= j < cluster.len() implies !occurs_at(rest, domain, j) by {
        if j + domain.len() <= rest.len() {
            assert(rest.subrange(j, j + domain.len())[0] == cluster[j]);
            assert(domain[0] == '.');
        }
    }
    lemma_search_found(rest, domain, 0, cluster.len() as int);
    assert(rest.take(cluster.len() as int) =~= cluster);
    assert(rest.skip((cluster.len() + domain.len()) as int) =~= remaining);
    assert(remaining[dir.len() as int] == '/');
    assert forall|j: int| dir.len() < j < remaining.len() implies remaining[j] != '/' by {
        assert(remaining[j] == name[j - dir.len() - 1]);
    }
    lemma_last_position_unique(remaining, '/', dir.len() as int);
    assert(remaining.skip(dir.len() as int + 1) =~= name);
}

/// The record that digits and stem write.
fn read_record(cluster: &Vec<char>, stem: &Vec<char>, is_metadata: bool) -> (r: Option<Salts>)
    ensures
        r == record_of(cluster@, stem@, is_metadata),
{
    let u = find_char(stem, '_');
    if u >= stem.len() {
        return None;
    }
    assert(stem@.take(u as int) =~= stem@.subrange(0, u as int));
    assert(stem@.skip(u + 1) =~= stem@.subrange(u + 1, stem.len() as int));
    let cluster_id = match parse_bounded(cluster, 0xFFFF_FFFF) {
        Some(c) => c,
        None => {
            return None;
        },
    };
    let match_id = match parse_bounded(&slice_of(stem, 0, u), 0xFFFF_FFFF_FFFF_FFFF) {
        Some(m) => m,
        None => {
            return None;
        },
    };
    let salt = match parse_bounded(&slice_of(stem, u + 1, stem.len()), 0xFFFF_FFFF) {
        Some(s) => s,
        None => {
            return None;
        },
    };
    Some(
        Salts {
            match_id,
            cluster_id: cluster_id as u32,
            metadata_salt: if is_metadata {
                Some(salt as u32)
            } else {
                None
            },
            replay_salt: if is_metadata {
                None
            } else {
                Some(salt as u32)
            },
        },
    )
}

impl Salts {
    /// Reads the identifiers that a replay download URL carries.
    pub fn from_url(url: &str) -> (r: Option<Salts>)
        ensures
            r == url_record(url@),
    {
        let full = chars_of(url);
        let q = find_char(&full, '?');
        proof {
            lemma_position(full@, '?');
        }
        let base = slice_of(&full, 0, q);
        assert(base@ =~= without_query(url@));
        let prefix = chars_of("http://replay");
        if !has_prefix(&base, &prefix) {
            return None;
        }
        let rest = slice_of(&base, prefix.len(), base.len());
        assert(rest@ =~= base@.skip(prefix.len() as int));
        let domain = chars_of(".valve.net/");
        let i = match find_sub(&rest, &domain) {
            Some(i) => i,
            None => {
                return None;
            },
        };
        proof {
            crate::text::lemma_search_from(rest@, domain@, 0);
        }
        let cluster = slice_of(&rest, 0, i);
        assert(cluster@ =~= rest@.take(i as int));
        let remaining = slice_of(&rest, i + domain.len(), rest.len());
        assert(remaining@ =~= rest@.skip(i + domain.len()));
        let slash = match rfind_char(&remaining, '/') {
            Some(s) => s,
            None => {
                return None;
            },
        };
        let name = slice_of(&remaining, slash + 1, remaining.len());
        assert(name@ =~= remaining@.skip(slash + 1));
        let meta = chars_of(".meta.bz2");
        let dem = chars_of(".dem.bz2");
        if has_suffix(&name, &meta) {
            let stem = slice_of(&name, 0, name.len() - meta.len());
            assert(stem@ =~= name@.take(name.len() - meta.len()));
            read_record(&cluster, &stem, true)
        } else if has_suffix(&name, &dem) {
            let stem = slice_of(&name, 0, name.len() - dem.len());
            assert(stem@ =~= name@.take(name.len() - dem.len()));
            read_record(&cluster, &stem, false)
        } else {
            None
        }
    }
}

} // verus!
