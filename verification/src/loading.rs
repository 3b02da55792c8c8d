//! The decision core of configuration loading: merging path lists from
//! different flags, naming a component after its file, telling loadable
//! config files from foreign ones by extension, and sorting a directory's
//! entries into files to load, namespace directories to descend into, and
//! entries to ignore.  Reading directories and files is I/O and stays with
//! the caller; this module works on the names and hands back plans.

use vstd::prelude::*;
use vstd::string::StringSliceAdditionalSpecFns;
use crate::config::BufferConfig;
use crate::config_text::{err_message, lossy_of, parse_buffer_config, parse_spec};

verus! {

/// A configuration file format the loader can decode.
#[derive(Clone, Copy, Debug, PartialEq, Eq, Structural)]
pub enum Format {
    Toml,
    Json,
    Yaml,
}

/// One place configuration is loaded from: a file, with an optional
/// explicit format, or a directory.
#[derive(Clone, Debug, PartialEq, Eq)]
pub enum ConfigPath {
    File(String, Option<Format>),
    Dir(String),
}

/// The index of the last occurrence of `c` in `s`, or `-1`.
pub open spec fn rfind_s(s: Seq<u8>, c: u8) -> int
    decreases s.len(),
{
    if s.len() == 0 {
        -1
    } else if s.last() == c {
        s.len() - 1
    } else {
        rfind_s(s.drop_last(), c)
    }
}

/// The last-occurrence index stays inside the sequence.
pub proof fn lemma_rfind_bounds(s: Seq<u8>, c: u8)
    ensures
        -1 <= rfind_s(s, c) < s.len(),
    decreases s.len(),
{
    if s.len() > 0 && s.last() != c {
        lemma_rfind_bounds(s.drop_last(), c);
    }
}

/// Finds the last occurrence of `t` in `b`.
fn rfind_byte(b: &[u8], t: u8) -> (r: Option<usize>)
    ensures
        -1 <= rfind_s(b@, t) < b@.len(),
        rfind_s(b@, t) >= 0 ==> r == Some(rfind_s(b@, t) as usize),
        rfind_s(b@, t) < 0 ==> r is None,
{
    proof {
        lemma_rfind_bounds(b@, t);
    }
    let n = b.len();
    let mut i = n;
    proof {
        assert(b@.subrange(0, n as int) =~= b@);
    }
    while i > 0
        invariant
            i <= n,
            n == b@.len(),
            rfind_s(b@, t) == rfind_s(b@.subrange(0, i as int), t),
        decreases i,
    {
        if *vstd::slice::slice_index_get(b, i - 1) == t {
            proof {
                assert(b@.subrange(0, i as int).last() == b@[i - 1]);
            }
            return Some(i - 1);
        }
        proof {
            assert(b@.subrange(0, i as int).drop_last() =~= b@.subrange(0, i as int - 1));
        }
        i = i - 1;
    }
    proof {
        assert(b@.subrange(0, 0) =~= Seq::<u8>::empty());
    }
    None
}

/// Whether the byte range equals `lit`.
fn range_eq(b: &[u8], start: usize, end: usize, lit: &Vec<u8>) -> (r: bool)
    requires
        start <= end <= b@.len(),
    ensures
        r <==> b@.subrange(start as int, end as int) == lit@,
{
    if end - start != lit.len() {
        proof {
            assert(b@.subrange(start as int, end as int).len() != lit@.len());
        }
        return false;
    }
    let m = lit.len();
    let mut i: usize = 0;
    while i < m
        invariant
            start <= end <= b@.len(),
            end - start == m,
            m == lit@.len(),
            i <= m,
            forall|j: int| 0 <= j < i ==> b@[start + j] == lit@[j],
        decreases m - i,
    {
        if *vstd::slice::slice_index_get(b, start + i) != lit[i] {
            proof {
                assert(b@.subrange(start as int, end as int)[i as int] != lit@[i as int]);
            }
            return false;
        }
        i = i + 1;
    }
    proof {
        assert(b@.subrange(start as int, end as int) =~= lit@);
    }
    true
}

/// Where the path's meaningful text ends: trailing separators and
/// trailing `.` components say nothing about the file, and the standard
/// path functions ignore them.
pub open spec fn trim_path_end(s: Seq<u8>, e: int) -> int
    decreases e,
{
    if e <= 0 {
        0
    } else if s[e - 1] == 47 {
        trim_path_end(s, e - 1)
    } else if s[e - 1] == 46 && (e == 1 || s[e - 2] == 47) {
        trim_path_end(s, e - 1)
    } else {
        e
    }
}

pub proof fn lemma_trim_path_end_bounds(s: Seq<u8>, e: int)
    requires
        0 <= e,
    ensures
        0 <= trim_path_end(s, e) <= e,
    decreases e,
{
    if e > 0 && (s[e - 1] == 47 || (s[e - 1] == 46 && (e == 1 || s[e - 2] == 47))) {
        lemma_trim_path_end_bounds(s, e - 1);
    }
}

/// Where the path's last real component starts.
pub open spec fn comp_start(s: Seq<u8>) -> int {
    rfind_s(s.subrange(0, trim_path_end(s, s.len() as int)), 47) + 1
}

/// The path's last real component: what stands between the last separator
/// and the end, trailing separators and `.` components ignored.
pub open spec fn comp_seq(s: Seq<u8>) -> Seq<u8> {
    s.subrange(comp_start(s), trim_path_end(s, s.len() as int))
}

/// Where the component's extension separator stands, relative to the
/// component: the last dot, only when something stands before it.
pub open spec fn ext_dot(comp: Seq<u8>) -> int {
    rfind_s(comp, 46)
}

/// The component's stem: the component up to its extension separator, the
/// whole component when there is none or when the component starts with
/// the dot.
pub open spec fn stem_seq(s: Seq<u8>) -> Seq<u8> {
    let comp = comp_seq(s);
    if ext_dot(comp) > 0 {
        comp.subrange(0, ext_dot(comp))
    } else {
        comp
    }
}

/// The component's extension, when it has one.
pub open spec fn ext_seq(s: Seq<u8>) -> Seq<u8> {
    let comp = comp_seq(s);
    if ext_dot(comp) > 0 {
        comp.subrange(ext_dot(comp) + 1, comp.len() as int)
    } else {
        Seq::empty()
    }
}

/// Splits a path into its last component's stem and extension.
fn split_stem_ext(path: &str) -> (r: (usize, usize, usize, usize))
    ensures
        ({
            let b = path.spec_bytes();
            &&& r.0 <= r.1 <= r.2 <= r.3 <= b.len()
            &&& b.subrange(r.0 as int, r.1 as int) == stem_seq(b)
            &&& b.subrange(r.2 as int, r.3 as int) == ext_seq(b)
        }),
{
    let b = path.as_bytes();
    let n = b.len();
    let mut end = n;
    proof {
        lemma_trim_path_end_bounds(b@, n as int);
    }
    while end > 0 && (*vstd::slice::slice_index_get(b, end - 1) == 47 || (*vstd::slice::slice_index_get(
        b,
        end - 1,
    ) == 46 && (end == 1 || *vstd::slice::slice_index_get(b, end - 2) == 47)))
        invariant
            end <= n,
            n == b@.len(),
            trim_path_end(b@, n as int) == trim_path_end(b@, end as int),
        decreases end,
    {
        end = end - 1;
    }
    proof {
        assert(end == trim_path_end(b@, n as int));
    }
    let prefix = vstd::slice::slice_subrange(b, 0, end);
    let cs = match rfind_byte(prefix, 47) {
        Some(k) => k + 1,
        None => 0,
    };
    proof {
        assert(comp_start(b@) == cs);
        assert(comp_seq(b@) =~= b@.subrange(cs as int, end as int));
    }
    let comp_slice = vstd::slice::slice_subrange(b, cs, end);
    let dot_opt = rfind_byte(comp_slice, 46);
    match dot_opt {
        Some(d) if d > 0 => {
            proof {
                assert(ext_dot(comp_seq(b@)) == d);
                assert(b@.subrange(cs as int, cs as int + d) =~= comp_seq(b@).subrange(
                    0,
                    d as int,
                ));
                assert(b@.subrange(cs as int + d + 1, end as int) =~= comp_seq(b@).subrange(
                    d as int + 1,
                    comp_seq(b@).len() as int,
                ));
            }
            (cs, cs + d, cs + d + 1, end)
        },
        _ => {
            proof {
                assert(ext_dot(comp_seq(b@)) <= 0);
                assert(b@.subrange(cs as int, end as int) =~= comp_seq(b@));
                assert(b@.subrange(end as int, end as int) =~= Seq::<u8>::empty());
            }
            (cs, end, end, end)
        },
    }
}

/// The format a file name implies: by its extension, `toml`, `yaml` or
/// `yml`, or `json`.
pub open spec fn format_of(s: Seq<u8>) -> Option<Format> {
    let e = ext_seq(s);
    if e == seq![116u8, 111u8, 109u8, 108u8] {
        Some(Format::Toml)
    } else if e == seq![121u8, 97u8, 109u8, 108u8] || e == seq![121u8, 109u8, 108u8] {
        Some(Format::Yaml)
    } else if e == seq![106u8, 115u8, 111u8, 110u8] {
        Some(Format::Json)
    } else {
        None
    }
}

impl Format {
    /// The format a path's extension implies, if any.
    pub fn from_path(path: &str) -> (r: Option<Format>)
        ensures
            r == format_of(path.spec_bytes()),
    {
        let b = path.as_bytes();
        let (_, _, es, ee) = split_stem_ext(path);
        let mut toml: Vec<u8> = Vec::new();
        toml.push(116);
        toml.push(111);
        toml.push(109);
        toml.push(108);
        let mut yaml: Vec<u8> = Vec::new();
        yaml.push(121);
        yaml.push(97);
        yaml.push(109);
        yaml.push(108);
        let mut yml: Vec<u8> = Vec::new();
        yml.push(121);
        yml.push(109);
        yml.push(108);
        let mut json: Vec<u8> = Vec::new();
        json.push(106);
        json.push(115);
        json.push(111);
        json.push(110);
        proof {
            assert(toml@ =~= seq![116u8, 111u8, 109u8, 108u8]);
            assert(yaml@ =~= seq![121u8, 97u8, 109u8, 108u8]);
            assert(yml@ =~= seq![121u8, 109u8, 108u8]);
            assert(json@ =~= seq![106u8, 115u8, 111u8, 110u8]);
        }
        if range_eq(b, es, ee, &toml) {
            Some(Format::Toml)
        } else if range_eq(b, es, ee, &yaml) || range_eq(b, es, ee, &yml) {
            Some(Format::Yaml)
        } else if range_eq(b, es, ee, &json) {
            Some(Format::Json)
        } else {
            None
        }
    }
}

/// Names a component after its file: the path's last real component
/// without its extension, trailing separators and `.` components ignored,
/// as the standard path functions read a path.  Fails, with the message
/// the loader reports, when no component remains or the last one is the
/// parent marker.
pub fn component_name(path: &str) -> (r: Result<String, Vec<String>>)
    ensures
        ({
            let b = path.spec_bytes();
            let bad = stem_seq(b).len() == 0 || comp_seq(b) == seq![46u8, 46u8];
            &&& r is Ok <==> !bad
            &&& (r matches Ok(name) ==> name@ == lossy_of(stem_seq(b)))
            &&& (r matches Err(msgs) ==> msgs@.len() == 1)
        }),
{
    let b = path.as_bytes();
    let n = b.len();
    let mut end = n;
    proof {
        lemma_trim_path_end_bounds(b@, n as int);
    }
    while end > 0 && (*vstd::slice::slice_index_get(b, end - 1) == 47 || (*vstd::slice::slice_index_get(
        b,
        end - 1,
    ) == 46 && (end == 1 || *vstd::slice::slice_index_get(b, end - 2) == 47)))
        invariant
            end <= n,
            n == b@.len(),
            trim_path_end(b@, n as int) == trim_path_end(b@, end as int),
        decreases end,
    {
        end = end - 1;
    }
    proof {
        assert(end == trim_path_end(b@, n as int));
    }
    let (ss, se, _, _) = split_stem_ext(path);
    let prefix = vstd::slice::slice_subrange(b, 0, end);
    let cs = match rfind_byte(prefix, 47) {
        Some(k) => k + 1,
        None => 0,
    };
    let mut dotdot: Vec<u8> = Vec::new();
    dotdot.push(46);
    dotdot.push(46);
    proof {
        assert(dotdot@ =~= seq![46u8, 46u8]);
        assert(comp_start(b@) == cs);
        assert(b@.subrange(cs as int, end as int) =~= comp_seq(b@));
    }
    if ss == se || range_eq(b, cs, end, &dotdot) {
        let mut msg = String::from_str("Couldn't get component name for file: \"");
        msg.append(path);
        msg.append("\"");
        let mut msgs: Vec<String> = Vec::new();
        msgs.push(msg);
        Err(msgs)
    } else {
        Ok(crate::config_text::decode_bytes(vstd::slice::slice_subrange(b, ss, se)))
    }
}

/// The paths of one flag's list, each paired with that flag's format hint.
pub open spec fn pairs_of(e: (Vec<String>, Option<Format>)) -> Seq<(String, Option<Format>)> {
    Seq::new(e.0@.len(), |j: int| (e.0@[j], e.1))
}

/// The flattening of the path lists from index `i` on.
pub open spec fn flat_paths(l: Seq<(Vec<String>, Option<Format>)>, i: int) -> Seq<
    (String, Option<Format>),
>
    decreases l.len() - i,
{
    if i < 0 || i >= l.len() {
        Seq::empty()
    } else {
        pairs_of(l[i]) + flat_paths(l, i + 1)
    }
}

/// Merges the path lists coming from different flags, with their formats,
/// into one list of paths with formats, in order.
pub fn merge_path_lists(path_lists: Vec<(Vec<String>, Option<Format>)>) -> (r: Vec<
    (String, Option<Format>),
>)
    ensures
        r@ == flat_paths(path_lists@, 0),
{
    let mut out: Vec<(String, Option<Format>)> = Vec::new();
    let n = path_lists.len();
    let mut lists = path_lists;
    let ghost l0 = lists@;
    let mut i: usize = 0;
    proof {
        assert(Seq::<(String, Option<Format>)>::empty() + flat_paths(l0, 0) =~= flat_paths(l0, 0));
    }
    while i < n
        invariant
            i <= n,
            n == l0.len(),
            lists@ == l0,
            flat_paths(l0, 0) =~= out@ + flat_paths(l0, i as int),
        decreases n - i,
    {
        let m = lists[i].0.len();
        let hint = lists[i].1;
        let ghost entry = l0[i as int];
        let mut j: usize = 0;
        while j < m
            invariant
                i < n,
                n == l0.len(),
                lists@ == l0,
                entry == l0[i as int],
                m == entry.0@.len(),
                j <= m,
                hint == entry.1,
                flat_paths(l0, 0) =~= out@ + pairs_of(entry).skip(j as int) + flat_paths(
                    l0,
                    i as int + 1,
                ),
            decreases m - j,
        {
            let p = lists[i].0[j].clone();
            out.push((p, hint));
            proof {
                assert(pairs_of(entry).skip(j as int)[0] == (entry.0@[j as int], entry.1));
                assert(pairs_of(entry).skip(j as int).drop_first() =~= pairs_of(entry).skip(
                    j as int + 1,
                ));
                assert(out@ + pairs_of(entry).skip(j as int + 1) =~= (out@.drop_last() + seq![
                    (entry.0@[j as int], entry.1),
                ]) + pairs_of(entry).skip(j as int + 1));
            }
            j = j + 1;
        }
        proof {
            assert(pairs_of(entry).skip(m as int) =~= Seq::<(String, Option<Format>)>::empty());
            assert(out@ + Seq::<(String, Option<Format>)>::empty() + flat_paths(
                l0,
                i as int + 1,
            ) =~= out@ + flat_paths(l0, i as int + 1));
        }
        i = i + 1;
    }
    proof {
        assert(flat_paths(l0, n as int) =~= Seq::<(String, Option<Format>)>::empty());
        assert(out@ + Seq::<(String, Option<Format>)>::empty() =~= out@);
    }
    out
}

/// Loads a buffer configuration from text.  The declarative stage-list
/// serialization this library defines is the line-oriented one: under a
/// `yaml` hint the result is exactly the grammar's, a rejection carried as
/// its rendered message.  The configuration surface is format-agnostic
/// with this one concrete serialization; a `toml` or `json` hint names a
/// format the buffer loader does not decode, and is reported as such
/// rather than guessed at.
pub fn load_from_str(input: &str, format: Format) -> (r: Result<BufferConfig, Vec<String>>)
    ensures
        r matches Ok(cfg) ==> format is Yaml && cfg.stages@.len() >= 1 && cfg.all_valid(),
        r matches Err(msgs) ==> msgs@.len() == 1,
        !(format is Yaml) ==> r is Err,
        format is Yaml ==> (r is Ok <==> parse_spec(input.spec_bytes()) is Ok),
        format is Yaml ==> (r matches Ok(cfg) ==> parse_spec(input.spec_bytes()) == Ok::<
            Seq<crate::config::BufferType>,
            crate::config_text::ErrView,
        >(cfg.stages@)),
        format is Yaml ==> (r matches Err(msgs) ==> parse_spec(input.spec_bytes()) matches Err(ev)
            && msgs@[0]@ == err_message(ev)),
{
    match format {
        Format::Yaml => match parse_buffer_config(input) {
            Ok(cfg) => Ok(cfg),
            Err(e) => {
                let mut msgs: Vec<String> = Vec::new();
                msgs.push(e.message());
                Err(msgs)
            },
        },
        Format::Toml => Err(unsupported_format_message()),
        Format::Json => Err(unsupported_format_message()),
    }
}

fn unsupported_format_message() -> (r: Vec<String>)
    ensures
        r@.len() == 1,
{
    let mut msgs: Vec<String> = Vec::new();
    msgs.push(String::from_str("buffer configuration is loaded from its line-oriented form"));
    msgs
}

/// One glob expansion rebuilt as configuration paths: every match keeps
/// the original entry's kind — and, for a file, its format hint.
pub open spec fn expansion_of(original: ConfigPath, matches: Seq<String>) -> Seq<ConfigPath> {
    match original {
        ConfigPath::File(_, hint) => Seq::new(
            matches.len(),
            |i: int| ConfigPath::File(matches[i], hint),
        ),
        ConfigPath::Dir(_) => Seq::new(matches.len(), |i: int| ConfigPath::Dir(matches[i])),
    }
}

/// Rebuilds one configured entry's glob matches as paths of the same
/// kind: a file pattern's matches stay files under the pattern's format
/// hint, a directory pattern's matches stay directories.
pub fn expand_paths(original: &ConfigPath, matches: Vec<String>) -> (r: Vec<ConfigPath>)
    ensures
        r@ == expansion_of(*original, matches@),
{
    let ghost ms = matches@;
    let mut out: Vec<ConfigPath> = Vec::new();
    let mut rest = matches;
    let n = rest.len();
    let mut i: usize = 0;
    while i < n
        invariant
            i <= n,
            n == ms.len(),
            rest@ == ms.skip(i as int),
            out@.len() == i,
            forall|j: int| 0 <= j < i ==> out@[j] == expansion_of(*original, ms)[j],
        decreases n - i,
    {
        let ghost prev = rest@;
        let m = rest.remove(0);
        proof {
            assert(m == ms[i as int]);
            assert(rest@ =~= ms.skip(i as int + 1));
        }
        match original {
            ConfigPath::File(_, hint) => out.push(ConfigPath::File(m, *hint)),
            ConfigPath::Dir(_) => out.push(ConfigPath::Dir(m)),
        }
        i = i + 1;
    }
    proof {
        assert(out@ =~= expansion_of(*original, ms));
    }
    out
}

/// Strict lexicographic order on byte strings, from index `i`: the first
/// differing byte decides; a proper prefix comes first.
pub open spec fn bytes_lt_from(a: Seq<u8>, b: Seq<u8>, i: int) -> bool
    decreases a.len() - i,
{
    if i >= a.len() {
        i < b.len()
    } else if i >= b.len() {
        false
    } else if a[i] < b[i] {
        true
    } else if a[i] > b[i] {
        false
    } else {
        bytes_lt_from(a, b, i + 1)
    }
}

pub open spec fn bytes_lt(a: Seq<u8>, b: Seq<u8>) -> bool {
    bytes_lt_from(a, b, 0)
}

/// One of: `a` before `b`, `b` before `a`, or the sequences agree — and
/// never both orders at once.
pub proof fn lemma_bytes_lt_trichotomy(a: Seq<u8>, b: Seq<u8>, i: int)
    requires
        0 <= i <= a.len(),
        i <= b.len(),
        forall|j: int| 0 <= j < i ==> a[j] == b[j],
    ensures
        bytes_lt_from(a, b, i) || bytes_lt_from(b, a, i) || a =~= b,
        !(bytes_lt_from(a, b, i) && bytes_lt_from(b, a, i)),
    decreases a.len() - i,
{
    if i < a.len() && i < b.len() && a[i] == b[i] {
        lemma_bytes_lt_trichotomy(a, b, i + 1);
    } else if i == a.len() && i == b.len() {
        assert(a =~= b);
    }
}

pub proof fn lemma_bytes_lt_irrefl(a: Seq<u8>, i: int)
    requires
        0 <= i,
    ensures
        !bytes_lt_from(a, a, i),
    decreases a.len() - i,
{
    if i < a.len() {
        lemma_bytes_lt_irrefl(a, i + 1);
    }
}

pub proof fn lemma_bytes_lt_trans(a: Seq<u8>, b: Seq<u8>, c: Seq<u8>, i: int)
    requires
        0 <= i,
        bytes_lt_from(a, b, i),
        bytes_lt_from(b, c, i),
    ensures
        bytes_lt_from(a, c, i),
    decreases a.len() - i,
{
    if i < a.len() && i < b.len() && i < c.len() && a[i] == b[i] && b[i] == c[i] {
        lemma_bytes_lt_trans(a, b, c, i + 1);
    }
}

/// A configuration path's sort key parts: its kind (files first), its
/// path bytes, and its format hint's rank.
pub open spec fn path_kind_rank(p: ConfigPath) -> int {
    match p {
        ConfigPath::File(_, _) => 0,
        ConfigPath::Dir(_) => 1,
    }
}

pub open spec fn path_bytes(p: ConfigPath) -> Seq<u8> {
    match p {
        ConfigPath::File(s, _) => vstd::utf8::encode_utf8(s@),
        ConfigPath::Dir(s) => vstd::utf8::encode_utf8(s@),
    }
}

pub open spec fn hint_rank(p: ConfigPath) -> int {
    match p {
        ConfigPath::File(_, None) => 0,
        ConfigPath::File(_, Some(Format::Toml)) => 1,
        ConfigPath::File(_, Some(Format::Json)) => 2,
        ConfigPath::File(_, Some(Format::Yaml)) => 3,
        ConfigPath::Dir(_) => 0,
    }
}

/// Whether two paths name the same place the same way: equal kind, bytes
/// and hint.
pub open spec fn path_key_eq(a: ConfigPath, b: ConfigPath) -> bool {
    &&& path_kind_rank(a) == path_kind_rank(b)
    &&& path_bytes(a) == path_bytes(b)
    &&& hint_rank(a) == hint_rank(b)
}

/// The library's canonical order on configuration paths: files before
/// directories, then by path bytes, then by format hint.
pub open spec fn path_le(a: ConfigPath, b: ConfigPath) -> bool {
    ||| path_kind_rank(a) < path_kind_rank(b)
    ||| (path_kind_rank(a) == path_kind_rank(b) && bytes_lt(path_bytes(a), path_bytes(b)))
    ||| (path_kind_rank(a) == path_kind_rank(b) && path_bytes(a) == path_bytes(b) && hint_rank(a)
        <= hint_rank(b))
}

/// The canonical order is total.
pub proof fn lemma_path_le_total(a: ConfigPath, b: ConfigPath)
    ensures
        path_le(a, b) || path_le(b, a),
{
    lemma_bytes_lt_trichotomy(path_bytes(a), path_bytes(b), 0);
}

/// The canonical order chains.
pub proof fn lemma_path_le_trans(a: ConfigPath, b: ConfigPath, c: ConfigPath)
    requires
        path_le(a, b),
        path_le(b, c),
    ensures
        path_le(a, c),
{
    if bytes_lt(path_bytes(a), path_bytes(b)) && bytes_lt(path_bytes(b), path_bytes(c)) {
        lemma_bytes_lt_trans(path_bytes(a), path_bytes(b), path_bytes(c), 0);
    }
}

/// How many entries of `s` share `x`'s key.
pub open spec fn count_key(s: Seq<ConfigPath>, x: ConfigPath) -> int
    decreases s.len(),
{
    if s.len() == 0 {
        0
    } else {
        (if path_key_eq(s[0], x) {
            1int
        } else {
            0int
        }) + count_key(s.drop_first(), x)
    }
}

pub proof fn lemma_count_key_nonneg(s: Seq<ConfigPath>, x: ConfigPath)
    ensures
        count_key(s, x) >= 0,
    decreases s.len(),
{
    if s.len() > 0 {
        lemma_count_key_nonneg(s.drop_first(), x);
    }
}

pub proof fn lemma_count_key_concat(a: Seq<ConfigPath>, b: Seq<ConfigPath>, x: ConfigPath)
    ensures
        count_key(a + b, x) == count_key(a, x) + count_key(b, x),
    decreases a.len(),
{
    if a.len() == 0 {
        assert(a + b =~= b);
    } else {
        assert((a + b)[0] == a[0]);
        assert((a + b).drop_first() =~= a.drop_first() + b);
        lemma_count_key_concat(a.drop_first(), b, x);
    }
}

/// An entry with the key makes the count positive.
pub proof fn lemma_count_key_pos(s: Seq<ConfigPath>, k: int, x: ConfigPath)
    requires
        0 <= k < s.len(),
        path_key_eq(s[k], x),
    ensures
        count_key(s, x) > 0,
    decreases k,
{
    lemma_count_key_nonneg(s.drop_first(), x);
    if k > 0 {
        assert(s.drop_first()[k - 1] == s[k]);
        lemma_count_key_pos(s.drop_first(), k - 1, x);
    }
}

/// Compares two paths in the canonical order.
fn path_le_ex(a: &ConfigPath, b: &ConfigPath) -> (r: bool)
    ensures
        r == path_le(*a, *b),
{
    let (ka, sa, ha) = path_parts(a);
    let (kb, sb, hb) = path_parts(b);
    if ka != kb {
        return ka < kb;
    }
    let ba = sa.as_str().as_bytes();
    let bb = sb.as_str().as_bytes();
    let na = ba.len();
    let nb = bb.len();
    let mut i: usize = 0;
    while i < na && i < nb && *vstd::slice::slice_index_get(ba, i) == *vstd::slice::slice_index_get(
        bb,
        i,
    )
        invariant
            i <= na,
            i <= nb,
            na == ba@.len(),
            nb == bb@.len(),
            forall|j: int| 0 <= j < i ==> ba@[j] == bb@[j],
            bytes_lt_from(ba@, bb@, 0) == bytes_lt_from(ba@, bb@, i as int),
            bytes_lt_from(bb@, ba@, 0) == bytes_lt_from(bb@, ba@, i as int),
        decreases na - i,
    {
        i = i + 1;
    }
    if i < na && i < nb {
        return *vstd::slice::slice_index_get(ba, i) < *vstd::slice::slice_index_get(bb, i);
    }
    if i < nb {
        return true;
    }
    if i < na {
        return false;
    }
    proof {
        assert(ba@ =~= bb@);
        lemma_bytes_lt_irrefl(ba@, 0);
    }
    ha <= hb
}

/// A path's kind rank, its text, and its hint rank.
fn path_parts<'a>(p: &'a ConfigPath) -> (r: (u8, &'a String, u8))
    ensures
        r.0 == path_kind_rank(*p),
        vstd::utf8::encode_utf8(r.1@) == path_bytes(*p),
        r.2 == hint_rank(*p),
{
    match p {
        ConfigPath::File(s, None) => (0, s, 0),
        ConfigPath::File(s, Some(Format::Toml)) => (0, s, 1),
        ConfigPath::File(s, Some(Format::Json)) => (0, s, 2),
        ConfigPath::File(s, Some(Format::Yaml)) => (0, s, 3),
        ConfigPath::Dir(s) => (1, s, 0),
    }
}

/// Sorts configuration paths into the canonical order, keeping every
/// entry: the output holds exactly as many entries of each key as the
/// input.
pub fn sort_paths(paths: Vec<ConfigPath>) -> (r: Vec<ConfigPath>)
    ensures
        forall|i: int, j: int| 0 <= i < j < r@.len() ==> path_le(
            #[trigger] r@[i],
            #[trigger] r@[j],
        ),
        forall|x: ConfigPath| #[trigger] count_key(r@, x) == count_key(paths@, x),
{
    let ghost full = paths@;
    let mut rest = paths;
    let mut out: Vec<ConfigPath> = Vec::new();
    let mut done: usize = 0;
    let n = rest.len();
    proof {
        assert(full.take(0) =~= Seq::<ConfigPath>::empty());
    }
    while done < n
        invariant
            done <= n,
            n == full.len(),
            rest@ == full.skip(done as int),
            forall|i: int, j: int| 0 <= i < j < out@.len() ==> path_le(
                #[trigger] out@[i],
                #[trigger] out@[j],
            ),
            forall|x: ConfigPath| #[trigger] count_key(out@, x) == count_key(
                full.take(done as int),
                x,
            ),
        decreases n - done,
    {
        let ghost prev_out = out@;
        let e = rest.remove(0);
        proof {
            assert(e == full[done as int]);
            assert(rest@ =~= full.skip(done as int + 1));
        }
        let m = out.len();
        let mut k: usize = 0;
        while k < m && path_le_ex(&out[k], &e)
            invariant
                k <= m,
                m == out@.len(),
                out@ == prev_out,
                forall|j: int| 0 <= j < k ==> path_le(#[trigger] out@[j], e),
            decreases m - k,
        {
            k = k + 1;
        }
        proof {
            if k < m {
                lemma_path_le_total(out@[k as int], e);
            }
        }
        out.insert(k, e);
        proof {
            assert(out@ =~= prev_out.take(k as int) + seq![e] + prev_out.skip(k as int));
            assert forall|i: int, j: int| 0 <= i < j < out@.len() implies path_le(
                #[trigger] out@[i],
                #[trigger] out@[j],
            ) by {
                if i == k && j > k {
                    lemma_path_le_trans(e, prev_out[k as int], prev_out[j - 1]);
                }
            }
            assert forall|x: ConfigPath| #[trigger] count_key(out@, x) == count_key(
                full.take(done as int + 1),
                x,
            ) by {
                lemma_count_key_concat(
                    prev_out.take(k as int) + seq![e],
                    prev_out.skip(k as int),
                    x,
                );
                lemma_count_key_concat(prev_out.take(k as int), seq![e], x);
                lemma_count_key_concat(prev_out.take(k as int), prev_out.skip(k as int), x);
                assert(prev_out.take(k as int) + prev_out.skip(k as int) =~= prev_out);
                lemma_count_key_concat(full.take(done as int), seq![e], x);
                assert(full.take(done as int) + seq![e] =~= full.take(done as int + 1));
            }
        }
        done = done + 1;
    }
    proof {
        assert(full.take(n as int) =~= full);
    }
    out
}

/// Removes adjacent repeats of one key from a canonically sorted list:
/// what remains is still sorted, adjacent entries have distinct keys, and
/// a key appears in the output exactly when it appeared in the input.
pub fn dedup_paths(paths: Vec<ConfigPath>) -> (r: Vec<ConfigPath>)
    requires
        forall|i: int, j: int| 0 <= i < j < paths@.len() ==> path_le(
            #[trigger] paths@[i],
            #[trigger] paths@[j],
        ),
    ensures
        forall|i: int, j: int| 0 <= i < j < r@.len() ==> path_le(
            #[trigger] r@[i],
            #[trigger] r@[j],
        ),
        forall|i: int| 0 <= i < r@.len() - 1 ==> !path_key_eq(#[trigger] r@[i], r@[i + 1]),
        forall|x: ConfigPath| (#[trigger] count_key(r@, x) > 0 <==> count_key(paths@, x) > 0),
{
    let ghost full = paths@;
    let mut rest = paths;
    let mut out: Vec<ConfigPath> = Vec::new();
    let mut done: usize = 0;
    let n = rest.len();
    proof {
        assert(full.take(0) =~= Seq::<ConfigPath>::empty());
    }
    while done < n
        invariant
            done <= n,
            n == full.len(),
            rest@ == full.skip(done as int),
            forall|i: int, j: int| 0 <= i < j < full.len() ==> path_le(
                #[trigger] full[i],
                #[trigger] full[j],
            ),
            forall|i: int, j: int| 0 <= i < j < out@.len() ==> path_le(
                #[trigger] out@[i],
                #[trigger] out@[j],
            ),
            forall|i: int| 0 <= i < out@.len() - 1 ==> !path_key_eq(
                #[trigger] out@[i],
                out@[i + 1],
            ),
            forall|i: int| 0 <= i < out@.len() ==> exists|j: int|
                0 <= j < done && (#[trigger] out@[i]) == full[j],
            forall|x: ConfigPath| (#[trigger] count_key(out@, x) > 0 <==> count_key(
                full.take(done as int),
                x,
            ) > 0),
        decreases n - done,
    {
        let ghost prev_out = out@;
        let e = rest.remove(0);
        proof {
            assert(e == full[done as int]);
            assert(rest@ =~= full.skip(done as int + 1));
        }
        let take_it = if out.len() == 0 {
            true
        } else {
            let last = out.len() - 1;
            !keys_equal(&out[last], &e)
        };
        if take_it {
            out.push(e);
            proof {
                assert forall|i: int, j: int| 0 <= i < j < out@.len() implies path_le(
                    #[trigger] out@[i],
                    #[trigger] out@[j],
                ) by {
                    if j == out@.len() - 1 {
                        let j0 = choose|j0: int| 0 <= j0 < done && prev_out[i] == full[j0];
                        assert(path_le(full[j0], full[done as int]));
                    }
                }
                assert forall|i: int| 0 <= i < out@.len() implies exists|j: int|
                    0 <= j < done + 1 && (#[trigger] out@[i]) == full[j] by {
                    if i == out@.len() - 1 {
                        assert(out@[i] == full[done as int]);
                    } else {
                        let j0 = choose|j0: int| 0 <= j0 < done && prev_out[i] == full[j0];
                        assert(out@[i] == full[j0]);
                    }
                }
            }
        }
        proof {
            assert forall|x: ConfigPath| (#[trigger] count_key(out@, x) > 0 <==> count_key(
                full.take(done as int + 1),
                x,
            ) > 0) by {
                assert(seq![e].drop_first() =~= Seq::<ConfigPath>::empty());
                assert(seq![e][0] == e);
                assert(count_key(Seq::<ConfigPath>::empty(), x) == 0);
                assert(count_key(seq![e], x) == (if path_key_eq(e, x) {
                    1int
                } else {
                    0int
                }));
                lemma_count_key_concat(full.take(done as int), seq![e], x);
                assert(full.take(done as int) + seq![e] =~= full.take(done as int + 1));
                lemma_count_key_nonneg(full.take(done as int), x);
                if take_it {
                    lemma_count_key_concat(prev_out, seq![e], x);
                    assert(out@ =~= prev_out + seq![e]);
                    lemma_count_key_nonneg(prev_out, x);
                } else {
                    if path_key_eq(e, x) {
                        assert(path_key_eq(out@[out@.len() - 1], x));
                        lemma_count_key_pos(out@, out@.len() - 1, x);
                    }
                }
            }
        }
        done = done + 1;
    }
    proof {
        assert(full.take(n as int) =~= full);
    }
    out
}

/// Whether two paths share kind, bytes and hint.
fn keys_equal(a: &ConfigPath, b: &ConfigPath) -> (r: bool)
    ensures
        r == path_key_eq(*a, *b),
{
    let (ka, sa, ha) = path_parts(a);
    let (kb, sb, hb) = path_parts(b);
    if ka != kb || ha != hb {
        return false;
    }
    let r = crate::config_text::str_bytes_equal(sa.as_str(), sb.as_str());
    proof {
        if sa@ != sb@ {
            vstd::utf8::encode_utf8_decode_utf8(sa@);
            vstd::utf8::encode_utf8_decode_utf8(sb@);
        }
    }
    r
}

/// The default configuration path: one well-known file, in its format.
pub fn default_config_paths() -> (r: Vec<ConfigPath>)
    ensures
        r@.len() == 1,
        r@[0] matches ConfigPath::File(p, f) && p@ == "/etc/vector/vector.toml"@ && f == Some(
            Format::Toml,
        ),
{
    let mut v: Vec<ConfigPath> = Vec::new();
    v.push(ConfigPath::File(String::from_str("/etc/vector/vector.toml"), Some(Format::Toml)));
    v
}

/// The files of a directory worth loading: those whose extension names a
/// known format, in order.
pub open spec fn loadable_from(names: Seq<String>, i: int) -> Seq<String>
    decreases names.len() - i,
{
    if i < 0 || i >= names.len() {
        Seq::empty()
    } else if format_of(vstd::utf8::encode_utf8(names[i]@)) is Some {
        seq![names[i]] + loadable_from(names, i + 1)
    } else {
        loadable_from(names, i + 1)
    }
}

/// Sorts a directory's file names into the ones the loader reads — those
/// whose extension names a known format — and leaves the rest unread, in
/// silence: a foreign file format is no error and no warning.
pub fn plan_dir_files(names: &Vec<String>) -> (r: Vec<String>)
    ensures
        r@ == loadable_from(names@, 0),
{
    let mut out: Vec<String> = Vec::new();
    let n = names.len();
    let mut i: usize = 0;
    proof {
        assert(Seq::<String>::empty() + loadable_from(names@, 0) =~= loadable_from(names@, 0));
    }
    while i < n
        invariant
            i <= n,
            n == names@.len(),
            loadable_from(names@, 0) =~= out@ + loadable_from(names@, i as int),
        decreases n - i,
    {
        if Format::from_path(names[i].as_str()).is_some() {
            out.push(names[i].clone());
        }
        i = i + 1;
    }
    proof {
        assert(loadable_from(names@, n as int) =~= Seq::<String>::empty());
        assert(out@ + Seq::<String>::empty() =~= out@);
    }
    out
}

/// Whether a directory name is one of the component namespaces the loader
/// descends into.
pub open spec fn is_namespace(s: Seq<u8>) -> bool {
    ||| s == seq![115u8, 111u8, 117u8, 114u8, 99u8, 101u8, 115u8]
    ||| s == seq![116u8, 114u8, 97u8, 110u8, 115u8, 102u8, 111u8, 114u8, 109u8, 115u8]
    ||| s == seq![115u8, 105u8, 110u8, 107u8, 115u8]
    ||| s == seq![116u8, 101u8, 115u8, 116u8, 115u8]
    ||| s == seq![101u8, 110u8, 114u8, 105u8, 99u8, 104u8, 109u8, 101u8, 110u8, 116u8, 95u8, 116u8, 97u8, 98u8, 108u8, 101u8, 115u8]
}

/// The component namespaces among a directory's subdirectory names, in
/// order, from index `i` on.
pub open spec fn namespaces_from(names: Seq<String>, i: int) -> Seq<String>
    decreases names.len() - i,
{
    if i < 0 || i >= names.len() {
        Seq::empty()
    } else if is_namespace(vstd::utf8::encode_utf8(names[i]@)) {
        seq![names[i]] + namespaces_from(names, i + 1)
    } else {
        namespaces_from(names, i + 1)
    }
}

/// Sorts a directory's subdirectory names into the component namespaces
/// the loader descends into — exactly those, in input order — and the
/// rest, which it ignores in silence.
pub fn plan_dir_subdirs(names: &Vec<String>) -> (r: Vec<String>)
    ensures
        r@ == namespaces_from(names@, 0),
{
    let mut out: Vec<String> = Vec::new();
    let n = names.len();
    let mut i: usize = 0;
    proof {
        assert(Seq::<String>::empty() + namespaces_from(names@, 0) =~= namespaces_from(
            names@,
            0,
        ));
    }
    while i < n
        invariant
            i <= n,
            n == names@.len(),
            namespaces_from(names@, 0) =~= out@ + namespaces_from(names@, i as int),
        decreases n - i,
    {
        if is_namespace_name(names[i].as_str()) {
            out.push(names[i].clone());
        }
        i = i + 1;
    }
    proof {
        assert(namespaces_from(names@, n as int) =~= Seq::<String>::empty());
        assert(out@ + Seq::<String>::empty() =~= out@);
    }
    out
}

/// Whether a name is one of the loader's component namespaces.
fn is_namespace_name(name: &str) -> (r: bool)
    ensures
        r == is_namespace(name.spec_bytes()),
{
    let b = name.as_bytes();
    let n = b.len();
    let mut sources: Vec<u8> = Vec::new();
    sources.push(115);
    sources.push(111);
    sources.push(117);
    sources.push(114);
    sources.push(99);
    sources.push(101);
    sources.push(115);
    let mut transforms: Vec<u8> = Vec::new();
    transforms.push(116);
    transforms.push(114);
    transforms.push(97);
    transforms.push(110);
    transforms.push(115);
    transforms.push(102);
    transforms.push(111);
    transforms.push(114);
    transforms.push(109);
    transforms.push(115);
    let mut sinks: Vec<u8> = Vec::new();
    sinks.push(115);
    sinks.push(105);
    sinks.push(110);
    sinks.push(107);
    sinks.push(115);
    let mut tests: Vec<u8> = Vec::new();
    tests.push(116);
    tests.push(101);
    tests.push(115);
    tests.push(116);
    tests.push(115);
    let mut enrichment: Vec<u8> = Vec::new();
    enrichment.push(101);
    enrichment.push(110);
    enrichment.push(114);
    enrichment.push(105);
    enrichment.push(99);
    enrichment.push(104);
    enrichment.push(109);
    enrichment.push(101);
    enrichment.push(110);
    enrichment.push(116);
    enrichment.push(95);
    enrichment.push(116);
    enrichment.push(97);
    enrichment.push(98);
    enrichment.push(108);
    enrichment.push(101);
    enrichment.push(115);
    proof {
        assert(sources@ =~= seq![115u8, 111u8, 117u8, 114u8, 99u8, 101u8, 115u8]);
        assert(transforms@ =~= seq![116u8, 114u8, 97u8, 110u8, 115u8, 102u8, 111u8, 114u8, 109u8, 115u8]);
        assert(sinks@ =~= seq![115u8, 105u8, 110u8, 107u8, 115u8]);
        assert(tests@ =~= seq![116u8, 101u8, 115u8, 116u8, 115u8]);
        assert(enrichment@ =~= seq![101u8, 110u8, 114u8, 105u8, 99u8, 104u8, 109u8, 101u8, 110u8, 116u8, 95u8, 116u8, 97u8, 98u8, 108u8, 101u8, 115u8]);
        assert(b@.subrange(0, n as int) =~= b@);
    }
    range_eq(b, 0, n, &sources) || range_eq(b, 0, n, &transforms) || range_eq(b, 0, n, &sinks)
        || range_eq(b, 0, n, &tests) || range_eq(b, 0, n, &enrichment)
}

} // verus!
