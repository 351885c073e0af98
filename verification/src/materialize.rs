//! The materialization pipeline: from a template source to the planned
//! destination tree.
//!
//! A template source is either a packed archive (as an in-memory byte
//! buffer) or a directory listing of entries. The pipeline resolves the
//! archive's common root prefix, classifies each file as text or binary,
//! rewrites its path, substitutes tokens in textual content, and emits one
//! action per entry: create a directory, or write a file's bytes. Actions
//! are emitted in entry order; executing them (creating parent directories
//! before each write) yields the destination tree.

use vstd::prelude::*;

use crate::bytes::{bytes_eq, copy_bytes, copy_range, lemma_deep_view_push, lemma_u8_deep_view,
    starts_with};
use crate::classify::{is_text_bytes, is_utf8_bytes, is_utf8, spec_is_text};
use crate::path_template::{find_sep_from, first_sep, lemma_first_sep_is, package_token,
    package_token_bytes, replace_package_in_path, spec_template_path, SLASH};
use crate::substitute::{apply_replacements, apply_table};
use crate::zip_source::{archive_bytes, archive_entries, archive_len, entry_data, entry_name,
    open_archive, spec_entry_data_ok, spec_entry_name_ok, spec_parse_archive};

verus! {

/// How many leading bytes of a directory-source file are sampled for
/// text/binary classification.
pub const SAMPLE_LEN: usize = 8192;

/// One unit produced by a template source: a slash-delimited relative
/// path, whether it is a directory, and (for files) the raw byte content.
#[derive(Debug, PartialEq, Eq)]
pub struct TemplateEntry {
    pub rel_path: Vec<u8>,
    pub is_dir: bool,
    pub data: Vec<u8>,
}

/// The mathematical model of a `TemplateEntry`.
pub struct SpecEntry {
    pub rel_path: Seq<u8>,
    pub is_dir: bool,
    pub data: Seq<u8>,
}

impl View for TemplateEntry {
    type V = SpecEntry;

    open spec fn view(&self) -> SpecEntry {
        SpecEntry { rel_path: self.rel_path@, is_dir: self.is_dir, data: self.data@ }
    }
}

/// A resolved template source: a packed archive's bytes, a directory's
/// entry listing, or nothing at the supplied path.
#[derive(Debug, PartialEq, Eq)]
pub enum TemplateSource {
    Archive(Vec<u8>),
    Directory(Vec<TemplateEntry>),
    Missing,
}

/// The mathematical model of a `TemplateSource`.
pub enum SpecSource {
    Archive(Seq<u8>),
    Directory(Seq<SpecEntry>),
    Missing,
}

impl View for TemplateSource {
    type V = SpecSource;

    open spec fn view(&self) -> SpecSource {
        match self {
            TemplateSource::Archive(b) => SpecSource::Archive(b@),
            TemplateSource::Directory(es) => SpecSource::Directory(
                es@.map_values(|e: TemplateEntry| e@),
            ),
            TemplateSource::Missing => SpecSource::Missing,
        }
    }
}

/// One planned step of materialization, relative to the destination root.
#[derive(Debug, PartialEq, Eq)]
pub enum Action {
    MakeDir { path: Vec<Vec<u8>> },
    WriteFile { path: Vec<Vec<u8>>, data: Vec<u8> },
}

/// The mathematical model of an `Action`.
pub enum SpecAction {
    MakeDir { path: Seq<Seq<u8>> },
    WriteFile { path: Seq<Seq<u8>>, data: Seq<u8> },
}

impl View for Action {
    type V = SpecAction;

    open spec fn view(&self) -> SpecAction {
        match self {
            Action::MakeDir { path } => SpecAction::MakeDir { path: path.deep_view() },
            Action::WriteFile { path, data } => SpecAction::WriteFile {
                path: path.deep_view(),
                data: data@,
            },
        }
    }
}

/// Why a run was aborted: the template path names nothing, the archive
/// cannot be opened or an entry cannot be read, or a filesystem operation
/// failed while reading the template or writing the destination.
#[derive(Debug, Clone, Copy, PartialEq, Eq)]
pub enum TemplateError {
    NotFound,
    ArchiveCorrupt,
    IoFailure,
}

/// The models of a list of actions.
pub open spec fn spec_actions(v: Seq<Action>) -> Seq<SpecAction> {
    v.map_values(|a: Action| a@)
}

proof fn lemma_actions_push(v: Seq<Action>, a: Action)
    ensures
        spec_actions(v.push(a)) == spec_actions(v).push(a@),
{
    assert(spec_actions(v.push(a)) =~= spec_actions(v).push(a@));
}

/// The value bound to the package placeholder: the value of the first
/// table pair whose token is exactly the placeholder, or empty bytes.
pub open spec fn spec_package_value(table: Seq<(Seq<u8>, Seq<u8>)>) -> Seq<u8>
    decreases table.len(),
{
    if table.len() == 0 {
        Seq::empty()
    } else if table[0].0 == package_token() {
        table[0].1
    } else {
        spec_package_value(table.skip(1))
    }
}

/// Looks up the package value in the replacement table.
pub fn package_value(table: &Vec<(Vec<u8>, Vec<u8>)>) -> (r: Vec<u8>)
    ensures
        r@ == spec_package_value(table.deep_view()),
{
    let ghost tv = table.deep_view();
    let token = package_token_bytes();
    let n = table.len();
    let mut k: usize = 0;
    proof {
        assert(tv.skip(0) =~= tv);
    }
    while k < n
        invariant
            k <= n,
            n == table@.len(),
            tv == table.deep_view(),
            token@ == package_token(),
            spec_package_value(tv) == spec_package_value(tv.skip(k as int)),
        decreases n - k,
    {
        proof {
            lemma_u8_deep_view(table@[k as int].0);
            lemma_u8_deep_view(table@[k as int].1);
            assert(tv.skip(k as int)[0] == tv[k as int]);
            assert(tv[k as int] == (table@[k as int].0@, table@[k as int].1@));
            assert(tv.skip(k as int).skip(1) =~= tv.skip(k + 1));
        }
        if bytes_eq(table[k].0.as_slice(), token.as_slice()) {
            return copy_bytes(table[k].1.as_slice());
        }
        k = k + 1;
    }
    proof {
        assert(tv.skip(n as int) =~= Seq::<(Seq<u8>, Seq<u8>)>::empty());
    }
    Vec::new()
}

/// The first path segment of `name` up to and including its first slash,
/// or nothing when `name` holds no slash.
pub open spec fn spec_first_seg_prefix(name: Seq<u8>) -> Option<Seq<u8>> {
    if first_sep(name, SLASH) < name.len() {
        Some(name.take(first_sep(name, SLASH) as int + 1))
    } else {
        None
    }
}

/// One step of the common-prefix fold: the first slashed name seeds the
/// prefix; a name without a slash has no first segment and so can never
/// agree — it collapses the accumulator to the empty marker for good, just
/// as a disagreeing first segment does.
pub open spec fn spec_prefix_step(acc: Option<Seq<u8>>, pre: Option<Seq<u8>>) -> Option<Seq<u8>> {
    match pre {
        Option::None => Some(Seq::empty()),
        Option::Some(p) => match acc {
            Option::None => Some(p),
            Option::Some(a) => if a == p {
                acc
            } else {
                Some(Seq::empty())
            },
        },
    }
}

/// The left fold of `spec_prefix_step` over all entry names.
pub open spec fn spec_prefix_fold(names: Seq<Seq<u8>>) -> Option<Seq<u8>>
    decreases names.len(),
{
    if names.len() == 0 {
        None
    } else {
        spec_prefix_step(spec_prefix_fold(names.drop_last()), spec_first_seg_prefix(names.last()))
    }
}

/// The common root prefix of an archive: present exactly when there is at
/// least one entry and every entry name agrees on its first segment, up to
/// and including its first slash. An entry without a slash cannot agree,
/// so it leaves the archive without a prefix.
pub open spec fn spec_common_prefix(names: Seq<Seq<u8>>) -> Option<Seq<u8>> {
    match spec_prefix_fold(names) {
        Option::Some(p) => if p.len() > 0 {
            Some(p)
        } else {
            None
        },
        Option::None => None,
    }
}

proof fn lemma_fold_none_empty(names: Seq<Seq<u8>>)
    requires
        spec_prefix_fold(names) is None,
    ensures
        names.len() == 0,
{
    if names.len() > 0 {
        let pre = spec_first_seg_prefix(names.last());
        assert(spec_prefix_fold(names) is Some);
    }
}

proof fn lemma_fold_some_agrees(names: Seq<Seq<u8>>, q: Seq<u8>)
    requires
        spec_prefix_fold(names) == Some(q),
        q.len() > 0,
    ensures
        forall|i: int| 0 <= i < names.len() ==> #[trigger] spec_first_seg_prefix(names[i])
            == Some(q),
    decreases names.len(),
{
    if names.len() == 0 {
    } else {
        let prev = names.drop_last();
        let acc = spec_prefix_fold(prev);
        let pre = spec_first_seg_prefix(names.last());
        match pre {
            Option::None => {
                assert(spec_prefix_fold(names) == Some(Seq::<u8>::empty()));
                assert(false);
            },
            Option::Some(p) => {
                match acc {
                    Option::None => {
                        assert(p == q);
                        lemma_fold_none_empty(prev);
                    },
                    Option::Some(a) => {
                        if a == p {
                            assert(acc == Some(q));
                            lemma_fold_some_agrees(prev, q);
                        } else {
                            assert(spec_prefix_fold(names) == Some(Seq::<u8>::empty()));
                            assert(false);
                        }
                    },
                }
            },
        }
        assert forall|i: int|
            0 <= i < names.len() implies #[trigger] spec_first_seg_prefix(names[i]) == Some(
            q,
        ) by {
            if i < names.len() - 1 {
                assert(names[i] == prev[i]);
                assert(spec_first_seg_prefix(prev[i]) == Some(q));
            } else {
                assert(names[i] == names.last());
            }
        }
    }
}

proof fn lemma_fold_shared(names: Seq<Seq<u8>>, p: Seq<u8>)
    requires
        names.len() > 0,
        forall|i: int| 0 <= i < names.len() ==> #[trigger] spec_first_seg_prefix(names[i])
            == Some(p),
    ensures
        spec_prefix_fold(names) == Some(p),
    decreases names.len(),
{
    reveal_with_fuel(spec_prefix_fold, 2);
    let prev = names.drop_last();
    assert(names.last() == names[names.len() - 1]);
    assert(spec_first_seg_prefix(names[names.len() - 1]) == Some(p));
    if prev.len() == 0 {
    } else {
        assert forall|i: int| 0 <= i < prev.len() implies #[trigger] spec_first_seg_prefix(
            prev[i],
        ) == Some(p) by {
            assert(prev[i] == names[i]);
            assert(spec_first_seg_prefix(names[i]) == Some(p));
        }
        lemma_fold_shared(prev, p);
    }
}

/// When every entry name shares the same nonempty first segment, the
/// archive's common root prefix is exactly that segment, and it is
/// stripped from every entry rather than preserved.
pub proof fn lemma_shared_first_segment_is_prefix(names: Seq<Seq<u8>>, p: Seq<u8>)
    requires
        names.len() > 0,
        p.len() > 0,
        forall|i: int| 0 <= i < names.len() ==> #[trigger] spec_first_seg_prefix(names[i])
            == Some(p),
    ensures
        spec_common_prefix(names) == Some(p),
{
    lemma_fold_shared(names, p);
}

/// An entry name without a slash has no first segment and so defeats the
/// common root prefix: the archive is materialized with every entry's full
/// stored path.
pub proof fn lemma_slashless_entry_defeats_prefix(names: Seq<Seq<u8>>, i: int)
    requires
        0 <= i < names.len(),
        spec_first_seg_prefix(names[i]) is None,
    ensures
        spec_common_prefix(names) is None,
{
    match spec_prefix_fold(names) {
        Option::None => {
        },
        Option::Some(q) => {
            if q.len() > 0 {
                lemma_fold_some_agrees(names, q);
                assert(spec_first_seg_prefix(names[i]) == Some(q));
                assert(false);
            }
        },
    }
}

/// Two entry names whose first segments differ leave the archive without
/// a common root prefix: every entry keeps its own top-level segment.
pub proof fn lemma_differing_first_segments_no_prefix(
    names: Seq<Seq<u8>>,
    i: int,
    j: int,
    p1: Seq<u8>,
    p2: Seq<u8>,
)
    requires
        0 <= i < names.len(),
        0 <= j < names.len(),
        spec_first_seg_prefix(names[i]) == Some(p1),
        spec_first_seg_prefix(names[j]) == Some(p2),
        p1 != p2,
    ensures
        spec_common_prefix(names) is None,
{
    match spec_prefix_fold(names) {
        Option::None => {
        },
        Option::Some(q) => {
            if q.len() > 0 {
                lemma_fold_some_agrees(names, q);
                assert(spec_first_seg_prefix(names[i]) == Some(q));
                assert(spec_first_seg_prefix(names[j]) == Some(q));
                assert(false);
            }
        },
    }
}

fn first_seg_prefix(name: &[u8]) -> (r: Option<Vec<u8>>)
    ensures
        r.deep_view() == spec_first_seg_prefix(name@),
{
    let n = name.len();
    let k = find_sep_from(name, 0, SLASH);
    proof {
        lemma_first_sep_is(name@, SLASH, k as nat);
    }
    if k < n {
        let p = copy_range(name, 0, k + 1);
        proof {
            lemma_u8_deep_view(p);
            assert(p@ =~= name@.take(k + 1));
        }
        Some(p)
    } else {
        None
    }
}

fn prefix_step(acc: Option<Vec<u8>>, pre: Option<Vec<u8>>) -> (r: Option<Vec<u8>>)
    ensures
        r.deep_view() == spec_prefix_step(acc.deep_view(), pre.deep_view()),
{
    match pre {
        Option::None => {
            let e: Vec<u8> = Vec::new();
            proof {
                lemma_u8_deep_view(e);
                assert(e@ =~= Seq::<u8>::empty());
            }
            Some(e)
        },
        Option::Some(pv) => match acc {
            Option::None => Some(pv),
            Option::Some(av) => {
                if bytes_eq(av.as_slice(), pv.as_slice()) {
                    proof {
                        lemma_u8_deep_view(av);
                        lemma_u8_deep_view(pv);
                    }
                    Some(av)
                } else {
                    proof {
                        lemma_u8_deep_view(av);
                        lemma_u8_deep_view(pv);
                    }
                    let e: Vec<u8> = Vec::new();
                    proof {
                        lemma_u8_deep_view(e);
                        assert(e@ =~= Seq::<u8>::empty());
                    }
                    Some(e)
                }
            },
        },
    }
}

/// Computes the common root prefix of the given entry names, as
/// `spec_common_prefix` describes.
pub fn compute_common_prefix(names: &Vec<Vec<u8>>) -> (r: Option<Vec<u8>>)
    ensures
        r.deep_view() == spec_common_prefix(names.deep_view()),
{
    let ghost nv = names.deep_view();
    let mut acc: Option<Vec<u8>> = None;
    let n = names.len();
    let mut i: usize = 0;
    proof {
        assert(nv.take(0) =~= Seq::<Seq<u8>>::empty());
    }
    while i < n
        invariant
            i <= n,
            n == names@.len(),
            nv == names.deep_view(),
            acc.deep_view() == spec_prefix_fold(nv.take(i as int)),
        decreases n - i,
    {
        let pre = first_seg_prefix(names[i].as_slice());
        proof {
            lemma_u8_deep_view(names@[i as int]);
            assert(nv[i as int] == names@[i as int].deep_view());
            assert(nv.take(i + 1).drop_last() =~= nv.take(i as int));
            assert(nv.take(i + 1).last() == nv[i as int]);
        }
        acc = prefix_step(acc, pre);
        i = i + 1;
    }
    proof {
        assert(nv.take(n as int) =~= nv);
    }
    match acc {
        Option::Some(av) => {
            if av.len() == 0 {
                proof {
                    lemma_u8_deep_view(av);
                }
                None
            } else {
                proof {
                    lemma_u8_deep_view(av);
                }
                Some(av)
            }
        },
        Option::None => None,
    }
}

/// `name` with the common prefix removed, where it applies.
pub open spec fn spec_strip_prefix(name: Seq<u8>, prefix: Option<Seq<u8>>) -> Seq<u8> {
    match prefix {
        Option::Some(p) => if p.is_prefix_of(name) {
            name.skip(p.len() as int)
        } else {
            name
        },
        Option::None => name,
    }
}

fn strip_prefix_bytes(name: &[u8], prefix: &Option<Vec<u8>>) -> (r: Vec<u8>)
    ensures
        r@ == spec_strip_prefix(name@, prefix.deep_view()),
{
    match prefix {
        Option::Some(p) => {
            proof {
                lemma_u8_deep_view(*p);
            }
            if starts_with(name, p.as_slice()) {
                let r = copy_range(name, p.len(), name.len());
                proof {
                    assert(r@ =~= name@.skip(p@.len() as int));
                }
                r
            } else {
                copy_bytes(name)
            }
        },
        Option::None => copy_bytes(name),
    }
}

/// An archive entry whose stored name ends in a slash marks a directory.
pub open spec fn spec_is_dir_name(name: Seq<u8>) -> bool {
    name.len() > 0 && name.last() == SLASH
}

fn is_dir_name(name: &[u8]) -> (r: bool)
    ensures
        r == spec_is_dir_name(name@),
{
    let n = name.len();
    n > 0 && name[n - 1] == SLASH
}

/// The classification sample of a directory-source file: its first
/// `SAMPLE_LEN` bytes.
pub open spec fn spec_sample(data: Seq<u8>) -> Seq<u8> {
    if data.len() <= SAMPLE_LEN as int {
        data
    } else {
        data.take(SAMPLE_LEN as int)
    }
}

/// The names of the given archive entries, in storage order.
pub open spec fn spec_entry_names(entries: Seq<(Seq<u8>, Seq<u8>)>) -> Seq<Seq<u8>> {
    entries.map_values(|e: (Seq<u8>, Seq<u8>)| e.0)
}

/// What one archive entry contributes: a directory for a slash-terminated
/// name; otherwise a file write, with token substitution applied exactly
/// when the content is classified text. The path is the stored name with
/// the common prefix stripped, then templated.
pub open spec fn spec_archive_entry_action(
    name: Seq<u8>,
    data: Seq<u8>,
    prefix: Option<Seq<u8>>,
    table: Seq<(Seq<u8>, Seq<u8>)>,
) -> SpecAction {
    let comps = spec_template_path(
        spec_strip_prefix(name, prefix),
        table,
        spec_package_value(table),
    );
    if spec_is_dir_name(name) {
        SpecAction::MakeDir { path: comps }
    } else if spec_is_text(data) {
        SpecAction::WriteFile { path: comps, data: apply_table(data, table) }
    } else {
        SpecAction::WriteFile { path: comps, data: data }
    }
}

/// The planned actions for a whole archive: the common prefix is resolved
/// over all entry names once, then every entry contributes in order.
pub open spec fn spec_archive_plan(
    entries: Seq<(Seq<u8>, Seq<u8>)>,
    table: Seq<(Seq<u8>, Seq<u8>)>,
) -> Seq<SpecAction> {
    let prefix = spec_common_prefix(spec_entry_names(entries));
    entries.map_values(
        |e: (Seq<u8>, Seq<u8>)| spec_archive_entry_action(e.0, e.1, prefix, table),
    )
}

/// What one directory-source entry contributes. Classification samples the
/// leading bytes; a file classified text whose full content is not
/// well-formed UTF-8 falls back to empty content rather than failing the
/// run. No prefix stripping applies: the caller names the walk root.
pub open spec fn spec_dir_entry_action(e: SpecEntry, table: Seq<(Seq<u8>, Seq<u8>)>) -> SpecAction {
    let comps = spec_template_path(e.rel_path, table, spec_package_value(table));
    if e.is_dir {
        SpecAction::MakeDir { path: comps }
    } else if spec_is_text(spec_sample(e.data)) {
        if is_utf8(e.data) {
            SpecAction::WriteFile { path: comps, data: apply_table(e.data, table) }
        } else {
            SpecAction::WriteFile { path: comps, data: apply_table(Seq::empty(), table) }
        }
    } else {
        SpecAction::WriteFile { path: comps, data: e.data }
    }
}

/// The planned actions for a directory source, one per entry in walk order.
pub open spec fn spec_dir_plan(
    entries: Seq<SpecEntry>,
    table: Seq<(Seq<u8>, Seq<u8>)>,
) -> Seq<SpecAction> {
    entries.map_values(|e: SpecEntry| spec_dir_entry_action(e, table))
}

/// The planned actions of a whole run, when one is owed: a missing
/// template plans nothing, an archive plans from its parsed entries, a
/// directory always plans.
pub open spec fn spec_process_plan(
    source: SpecSource,
    table: Seq<(Seq<u8>, Seq<u8>)>,
) -> Option<Seq<SpecAction>> {
    match source {
        SpecSource::Missing => None,
        SpecSource::Archive(bytes) => match spec_parse_archive(bytes) {
            Option::Some(entries) => Some(spec_archive_plan(entries, table)),
            Option::None => None,
        },
        SpecSource::Directory(es) => Some(spec_dir_plan(es, table)),
    }
}

/// Every entry of a parsed archive can actually be read: each stored name
/// decodes, and each file entry's content decompresses. Like parsing
/// itself this is a deterministic property of the buffer's bytes, so it
/// says exactly when an archive run succeeds.
pub open spec fn spec_archive_readable(bytes: Seq<u8>) -> bool {
    &&& spec_parse_archive(bytes) is Some
    &&& forall|i: int|
        0 <= i < spec_parse_archive(bytes)->Some_0.len() ==> #[trigger] spec_entry_name_ok(
            bytes,
            i,
        )
    &&& forall|i: int|
        0 <= i < spec_parse_archive(bytes)->Some_0.len() && !spec_is_dir_name(
            spec_parse_archive(bytes)->Some_0[i].0,
        ) ==> #[trigger] spec_entry_data_ok(bytes, i)
}

/// When a whole run owes success: never for a missing template, always for
/// a directory listing, and for an archive exactly when it parses and
/// every entry is readable.
pub open spec fn spec_process_ok(source: SpecSource) -> bool {
    match source {
        SpecSource::Missing => false,
        SpecSource::Archive(b) => spec_archive_readable(b),
        SpecSource::Directory(_) => true,
    }
}

fn plan_archive(bytes: &Vec<u8>, replacements: &Vec<(Vec<u8>, Vec<u8>)>) -> (r: Result<
    Vec<Action>,
    TemplateError,
>)
    ensures
        r is Ok <==> spec_archive_readable(bytes@),
        r is Err ==> r == Err::<Vec<Action>, TemplateError>(TemplateError::ArchiveCorrupt),
        r is Ok ==> spec_parse_archive(bytes@) is Some && spec_actions(r->Ok_0@)
            == spec_archive_plan(spec_parse_archive(bytes@)->Some_0, replacements.deep_view()),
{
    let ghost tv = replacements.deep_view();
    let mut archive = match open_archive(bytes) {
        Ok(a) => a,
        Err(_) => {
            proof {
                assert(!spec_archive_readable(bytes@));
            }
            return Err(TemplateError::ArchiveCorrupt);
        },
    };
    let ghost entries = archive_entries(archive);
    proof {
        assert(spec_parse_archive(bytes@) == Some(entries));
        assert(archive_bytes(archive) == bytes@);
    }
    let n = archive_len(&archive);
    let mut names: Vec<Vec<u8>> = Vec::new();
    let mut i: usize = 0;
    proof {
        assert(names.deep_view() =~= spec_entry_names(entries).take(0));
    }
    while i < n
        invariant
            i <= n,
            n == archive_entries(archive).len(),
            archive_entries(archive) == entries,
            archive_bytes(archive) == bytes@,
            spec_parse_archive(bytes@) == Some(entries),
            forall|k: int| 0 <= k < i ==> #[trigger] spec_entry_name_ok(bytes@, k),
            names.deep_view() == spec_entry_names(entries).take(i as int),
        decreases n - i,
    {
        let nm = match entry_name(&mut archive, i) {
            Ok(nm) => nm,
            Err(_) => {
                proof {
                    assert(!spec_entry_name_ok(bytes@, i as int));
                    assert(!spec_archive_readable(bytes@));
                }
                return Err(TemplateError::ArchiveCorrupt);
            },
        };
        let ghost nmg = nm;
        let ghost vprev = names;
        names.push(nm);
        proof {
            lemma_deep_view_push(vprev, names, nmg);
            assert(spec_entry_names(entries)[i as int] == entries[i as int].0);
            assert(names.deep_view() =~= spec_entry_names(entries).take(i + 1));
        }
        i = i + 1;
    }
    proof {
        assert(spec_entry_names(entries).take(n as int) =~= spec_entry_names(entries));
    }
    let prefix = compute_common_prefix(&names);
    let ghost prefixv = prefix.deep_view();
    let pkg = package_value(replacements);
    let ghost plan = spec_archive_plan(entries, tv);
    let mut out: Vec<Action> = Vec::new();
    let mut j: usize = 0;
    proof {
        assert(spec_actions(out@) =~= plan.take(0));
    }
    while j < n
        invariant
            j <= n,
            n == archive_entries(archive).len(),
            archive_entries(archive) == entries,
            archive_bytes(archive) == bytes@,
            spec_parse_archive(bytes@) == Some(entries),
            forall|k: int| 0 <= k < n ==> #[trigger] spec_entry_name_ok(bytes@, k),
            forall|k: int|
                0 <= k < j && !spec_is_dir_name(entries[k].0) ==> #[trigger] spec_entry_data_ok(
                    bytes@,
                    k,
                ),
            names.deep_view() == spec_entry_names(entries),
            names@.len() == n,
            prefixv == prefix.deep_view(),
            prefixv == spec_common_prefix(spec_entry_names(entries)),
            tv == replacements.deep_view(),
            pkg@ == spec_package_value(tv),
            plan == spec_archive_plan(entries, tv),
            spec_actions(out@) == plan.take(j as int),
        decreases n - j,
    {
        let ghost name_spec = entries[j as int].0;
        proof {
            lemma_u8_deep_view(names@[j as int]);
            assert(names.deep_view()[j as int] == names@[j as int].deep_view());
            assert(spec_entry_names(entries)[j as int] == name_spec);
        }
        let rel = strip_prefix_bytes(names[j].as_slice(), &prefix);
        let comps = replace_package_in_path(rel.as_slice(), replacements, pkg.as_slice());
        let act: Action;
        if is_dir_name(names[j].as_slice()) {
            act = Action::MakeDir { path: comps };
        } else {
            let data = match entry_data(&mut archive, j) {
                Ok(d) => d,
                Err(_) => {
                    proof {
                        assert(!spec_entry_data_ok(bytes@, j as int));
                        assert(!spec_is_dir_name(entries[j as int].0));
                        assert(!spec_archive_readable(bytes@));
                    }
                    return Err(TemplateError::ArchiveCorrupt);
                },
            };
            if is_text_bytes(data.as_slice()) {
                let replaced = apply_replacements(data.as_slice(), replacements);
                act = Action::WriteFile { path: comps, data: replaced };
            } else {
                act = Action::WriteFile { path: comps, data: data };
            }
        }
        proof {
            assert(plan[j as int] == spec_archive_entry_action(
                name_spec,
                entries[j as int].1,
                prefixv,
                tv,
            ));
            assert(act@ == plan[j as int]);
        }
        let ghost outprev = out@;
        out.push(act);
        proof {
            lemma_actions_push(outprev, act);
            assert(spec_actions(out@) =~= plan.take(j + 1));
        }
        j = j + 1;
    }
    proof {
        assert(plan.take(n as int) =~= plan);
        assert(spec_archive_readable(bytes@));
    }
    Ok(out)
}

fn plan_directory(entries: &Vec<TemplateEntry>, replacements: &Vec<(Vec<u8>, Vec<u8>)>) -> (r: Vec<
    Action,
>)
    ensures
        spec_actions(r@) == spec_dir_plan(
            entries@.map_values(|e: TemplateEntry| e@),
            replacements.deep_view(),
        ),
{
    let ghost tv = replacements.deep_view();
    let ghost ev = entries@.map_values(|e: TemplateEntry| e@);
    let ghost plan = spec_dir_plan(ev, tv);
    let pkg = package_value(replacements);
    let mut out: Vec<Action> = Vec::new();
    let n = entries.len();
    let mut i: usize = 0;
    proof {
        assert(spec_actions(out@) =~= plan.take(0));
    }
    while i < n
        invariant
            i <= n,
            n == entries@.len(),
            ev == entries@.map_values(|e: TemplateEntry| e@),
            tv == replacements.deep_view(),
            pkg@ == spec_package_value(tv),
            plan == spec_dir_plan(ev, tv),
            spec_actions(out@) == plan.take(i as int),
        decreases n - i,
    {
        let e = &entries[i];
        proof {
            assert(ev[i as int] == entries@[i as int]@);
            assert(plan[i as int] == spec_dir_entry_action(ev[i as int], tv));
        }
        let comps = replace_package_in_path(e.rel_path.as_slice(), replacements, pkg.as_slice());
        let act: Action;
        if e.is_dir {
            act = Action::MakeDir { path: comps };
        } else {
            let dlen = e.data.len();
            let sample: &[u8] = if dlen <= SAMPLE_LEN {
                e.data.as_slice()
            } else {
                vstd::slice::slice_subrange(e.data.as_slice(), 0, SAMPLE_LEN)
            };
            proof {
                assert(sample@ == spec_sample(e.data@));
            }
            if is_text_bytes(sample) {
                if is_utf8_bytes(e.data.as_slice()) {
                    let replaced = apply_replacements(e.data.as_slice(), replacements);
                    act = Action::WriteFile { path: comps, data: replaced };
                } else {
                    let empty: Vec<u8> = Vec::new();
                    let replaced = apply_replacements(empty.as_slice(), replacements);
                    proof {
                        assert(empty@ =~= Seq::<u8>::empty());
                    }
                    act = Action::WriteFile { path: comps, data: replaced };
                }
            } else {
                act = Action::WriteFile { path: comps, data: copy_bytes(e.data.as_slice()) };
            }
        }
        proof {
            assert(act@ == plan[i as int]);
        }
        let ghost outprev = out@;
        out.push(act);
        proof {
            lemma_actions_push(outprev, act);
            assert(spec_actions(out@) =~= plan.take(i + 1));
        }
        i = i + 1;
    }
    proof {
        assert(plan.take(n as int) =~= plan);
    }
    out
}

/// One full materialization run over a resolved template source: plans the
/// destination tree as a sequence of actions, or reports the first
/// unrecoverable condition. Success is owed exactly as `spec_process_ok`
/// says: a missing template is rejected as `NotFound`, an archive succeeds
/// precisely when it parses and every entry is readable (else
/// `ArchiveCorrupt`), and a directory listing always plans. On success the
/// actions are exactly `spec_process_plan` of the source and table.
pub fn process_template(source: &TemplateSource, replacements: &Vec<(Vec<u8>, Vec<u8>)>) -> (r:
    Result<Vec<Action>, TemplateError>)
    ensures
        r is Ok <==> spec_process_ok(source@),
        r is Ok ==> spec_process_plan(source@, replacements.deep_view()) == Some(
            spec_actions(r->Ok_0@),
        ),
        (r == Err::<Vec<Action>, TemplateError>(TemplateError::NotFound)) <==> source@
            is Missing,
        (r == Err::<Vec<Action>, TemplateError>(TemplateError::ArchiveCorrupt)) <==> (source@
            matches SpecSource::Archive(b) && !spec_archive_readable(b)),
{
    match source {
        TemplateSource::Missing => Err(TemplateError::NotFound),
        TemplateSource::Archive(bytes) => plan_archive(bytes, replacements),
        TemplateSource::Directory(entries) => Ok(plan_directory(entries, replacements)),
    }
}

/// Materialization is a function of the template input and the replacement
/// table alone: whether a run succeeds and what it plans are both fixed by
/// the source and table, so after one successful run a repeated run over
/// unchanged inputs succeeds as well and plans the identical actions,
/// rewriting byte-identical files.
pub proof fn lemma_rerun_identical(
    s1: SpecSource,
    s2: SpecSource,
    t1: Seq<(Seq<u8>, Seq<u8>)>,
    t2: Seq<(Seq<u8>, Seq<u8>)>,
)
    requires
        s1 == s2,
        t1 == t2,
        spec_process_ok(s1),
    ensures
        spec_process_ok(s2),
        spec_process_plan(s1, t1) == spec_process_plan(s2, t2),
        spec_process_plan(s2, t2) is Some,
{
}

/// A file entry whose bytes hold a NUL is classified binary and passes
/// through the pipeline unchanged: its planned write carries exactly the
/// original bytes, with no substitution applied.
pub proof fn lemma_binary_passthrough(
    name: Seq<u8>,
    data: Seq<u8>,
    prefix: Option<Seq<u8>>,
    table: Seq<(Seq<u8>, Seq<u8>)>,
    i: int,
)
    requires
        !spec_is_dir_name(name),
        0 <= i < data.len(),
        data[i] == 0u8,
    ensures
        spec_archive_entry_action(name, data, prefix, table) == (SpecAction::WriteFile {
            path: spec_template_path(
                spec_strip_prefix(name, prefix),
                table,
                spec_package_value(table),
            ),
            data: data,
        }),
{
    crate::classify::lemma_nul_is_binary(data, i);
}

} // verus!
