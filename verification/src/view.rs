//! Store access and session views: random record access, paginated view
//! resolution, preview pages and manual selection changes.

use vstd::prelude::*;
use crate::json::{spec_parse_json, JsonSpec, JsonValue};
use crate::models::{
    DataError, DistillSummary, FieldMap, ManualChange, PreviewField, PreviewItem, PreviewPage,
};
use crate::records::{build_preview_fields, preview_fields_spec};

verus! {

/// The stored line of record `id`; out of range past the record count.
pub fn read_record_line(lines: &Vec<String>, id: usize) -> (r: Result<String, DataError>)
    ensures
        match r {
            Ok(s) => id < lines@.len() && s@ == lines.deep_view()[id as int],
            Err(e) => e is OutOfRange && id >= lines@.len(),
        },
{
    if id >= lines.len() {
        return Err(DataError::OutOfRange);
    }
    Ok(lines[id].clone())
}

/// The parsed record at `id`.
pub fn read_record_value(lines: &Vec<String>, id: usize) -> (r: Result<JsonValue, DataError>)
    ensures
        match r {
            Ok(v) => id < lines@.len() && spec_parse_json(lines.deep_view()[id as int]) == Some(
                v@,
            ),
            Err(e) => (e is OutOfRange && id >= lines@.len()) || (e is Parse && id < lines@.len()
                && spec_parse_json(lines.deep_view()[id as int]) is None),
        },
{
    let line = match read_record_line(lines, id) {
        Ok(s) => s,
        Err(e) => {
            return Err(e);
        },
    };
    match crate::json::parse_json(line.as_str()) {
        Some(v) => Ok(v),
        None => Err(DataError::Parse),
    }
}

/// The id window `[offset, offset+page_size)` clipped to `total`.
pub open spec fn range_ids(offset: nat, page_size: nat, total: nat) -> Seq<usize> {
    if offset >= total {
        Seq::empty()
    } else {
        let hi: nat = if offset + page_size < total {
            (offset + page_size) as nat
        } else {
            total
        };
        Seq::new((hi - offset) as nat, |i: int| (offset + i) as usize)
    }
}

/// The window of a stored id list.
pub open spec fn slice_ids(ids: Seq<usize>, offset: nat, page_size: nat) -> Seq<usize> {
    if offset >= ids.len() {
        Seq::empty()
    } else {
        let hi: nat = if offset + page_size < ids.len() {
            (offset + page_size) as nat
        } else {
            ids.len() as nat
        };
        ids.subrange(offset as int, hi as int)
    }
}

/// The page offset: pages count from one; the product saturates.
pub open spec fn page_offset(page: nat, page_size: nat) -> nat {
    let p: nat = if page >= 1 {
        (page - 1) as nat
    } else {
        0
    };
    if p * page_size > usize::MAX {
        usize::MAX as nat
    } else {
        (p * page_size) as nat
    }
}

/// The ids one view page shows, and the view's total: the raw store for the
/// plain view, the stored lists for the named ones, an empty page where no
/// list is held yet.
pub open spec fn view_ids_spec(
    filtered: Option<Seq<usize>>,
    selected: Option<Seq<usize>>,
    removed: Option<Seq<usize>>,
    record_count: nat,
    view: Seq<char>,
    page: nat,
    page_size: nat,
) -> (Seq<usize>, nat) {
    let offset = page_offset(page, page_size);
    if view == "filtered"@ {
        match filtered {
            Some(ids) => (slice_ids(ids, offset, page_size), ids.len() as nat),
            None => (range_ids(offset, page_size, record_count), record_count),
        }
    } else if view == "selected"@ {
        match selected {
            Some(ids) => (slice_ids(ids, offset, page_size), ids.len() as nat),
            None => (Seq::empty(), 0),
        }
    } else if view == "removed"@ {
        match removed {
            Some(ids) => (slice_ids(ids, offset, page_size), ids.len() as nat),
            None => (Seq::empty(), 0),
        }
    } else {
        (range_ids(offset, page_size, record_count), record_count)
    }
}

fn slice_ids_x(ids: &Vec<usize>, offset: usize, page_size: usize) -> (r: Vec<usize>)
    ensures
        r@ == slice_ids(ids@, offset as nat, page_size as nat),
{
    let n = ids.len();
    let mut out: Vec<usize> = Vec::new();
    if offset >= n {
        proof {
            assert(out@ =~= slice_ids(ids@, offset as nat, page_size as nat));
        }
        return out;
    }
    let hi: usize = if page_size < n - offset {
        offset + page_size
    } else {
        n
    };
    let mut i: usize = offset;
    while i < hi
        invariant
            offset <= i <= hi <= n,
            n == ids@.len(),
            hi as nat == (if offset + page_size < n {
                (offset + page_size) as nat
            } else {
                n as nat
            }),
            out@ =~= ids@.subrange(offset as int, i as int),
        decreases hi - i,
    {
        out.push(ids[i]);
        proof {
            assert(out@ =~= ids@.subrange(offset as int, i as int + 1));
        }
        i = i + 1;
    }
    proof {
        assert(out@ =~= slice_ids(ids@, offset as nat, page_size as nat));
    }
    out
}

fn range_ids_x(offset: usize, page_size: usize, total: usize) -> (r: Vec<usize>)
    ensures
        r@ == range_ids(offset as nat, page_size as nat, total as nat),
{
    let mut out: Vec<usize> = Vec::new();
    if offset >= total {
        proof {
            assert(out@ =~= range_ids(offset as nat, page_size as nat, total as nat));
        }
        return out;
    }
    let hi: usize = if page_size < total - offset {
        offset + page_size
    } else {
        total
    };
    let mut i: usize = offset;
    while i < hi
        invariant
            offset <= i <= hi <= total,
            hi as nat == (if offset + page_size < total {
                (offset + page_size) as nat
            } else {
                total as nat
            }),
            out@.len() == i - offset,
            forall|k: int| 0 <= k < i - offset ==> (#[trigger] out@[k]) == (offset + k) as usize,
        decreases hi - i,
    {
        out.push(i);
        i = i + 1;
    }
    proof {
        assert(out@ =~= range_ids(offset as nat, page_size as nat, total as nat));
    }
    out
}

/// Runtime form of [`view_ids_spec`].
pub fn resolve_view_ids(
    filtered: Option<&Vec<usize>>,
    selected: Option<&Vec<usize>>,
    removed: Option<&Vec<usize>>,
    record_count: usize,
    view: &str,
    page: usize,
    page_size: usize,
) -> (r: (Vec<usize>, usize))
    ensures
        ({
            let spec = view_ids_spec(
                match filtered {
                    Some(v) => Some(v@),
                    None => None,
                },
                match selected {
                    Some(v) => Some(v@),
                    None => None,
                },
                match removed {
                    Some(v) => Some(v@),
                    None => None,
                },
                record_count as nat,
                view@,
                page as nat,
                page_size as nat,
            );
            r.0@ == spec.0 && r.1 as nat == spec.1
        }),
{
    let p = if page >= 1 {
        page - 1
    } else {
        0
    };
    let offset = match p.checked_mul(page_size) {
        Some(v) => v,
        None => usize::MAX,
    };
    proof {
        assert(offset as nat == page_offset(page as nat, page_size as nat));
    }
    if crate::text::str_eq(view, "filtered") {
        match filtered {
            Some(ids) => (slice_ids_x(ids, offset, page_size), ids.len()),
            None => (range_ids_x(offset, page_size, record_count), record_count),
        }
    } else if crate::text::str_eq(view, "selected") {
        match selected {
            Some(ids) => (slice_ids_x(ids, offset, page_size), ids.len()),
            None => (Vec::new(), 0),
        }
    } else if crate::text::str_eq(view, "removed") {
        match removed {
            Some(ids) => (slice_ids_x(ids, offset, page_size), ids.len()),
            None => (Vec::new(), 0),
        }
    } else {
        (range_ids_x(offset, page_size, record_count), record_count)
    }
}

/// The items of one page: each id's record parsed and reduced to its
/// preview fields.
pub open spec fn page_items_rel(
    lines: Seq<Seq<char>>,
    ids: Seq<usize>,
    fm: FieldMap,
    items: Seq<PreviewItem>,
) -> bool {
    &&& items.len() == ids.len()
    &&& forall|k: int|
        0 <= k < ids.len() ==> (#[trigger] items[k]).id == ids[k] && (ids[k] as int)
            < lines.len() && (spec_parse_json(lines[ids[k] as int]) matches Some(rec)
            && items[k].fields.deep_view() == preview_fields_spec(rec, fm))
}

/// Build one preview page over the store's lines.
pub fn build_preview_page(
    lines: &Vec<String>,
    ids: &Vec<usize>,
    total: usize,
    page: usize,
    page_size: usize,
    field_map: &FieldMap,
) -> (r: Result<PreviewPage, DataError>)
    ensures
        match r {
            Ok(pg) => page_items_rel(lines.deep_view(), ids@, *field_map, pg.items@)
                && pg.total_count == total && pg.page == page && pg.page_size == page_size,
            Err(e) => {
                ||| (e is OutOfRange && exists|k: int|
                    0 <= k < ids@.len() && (#[trigger] ids@[k]) >= lines@.len())
                ||| (e is Parse && exists|k: int|
                    0 <= k < ids@.len() && (#[trigger] ids@[k]) < lines@.len()
                        && spec_parse_json(lines.deep_view()[ids@[k] as int]) is None)
            },
        },
{
    let n = ids.len();
    let mut items: Vec<PreviewItem> = Vec::new();
    let mut i: usize = 0;
    while i < n
        invariant
            i <= n,
            n == ids@.len(),
            items@.len() == i,
            forall|k: int|
                0 <= k < i ==> (#[trigger] items@[k]).id == ids@[k] && (ids@[k] as int)
                    < lines@.len() && (spec_parse_json(lines.deep_view()[ids@[k] as int])
                    matches Some(rec) && items@[k].fields.deep_view() == preview_fields_spec(
                    rec,
                    *field_map,
                )),
        decreases n - i,
    {
        let id = ids[i];
        let rec = match read_record_value(lines, id) {
            Ok(v) => v,
            Err(e) => {
                proof {
                    assert(ids@[i as int] == id);
                }
                return Err(e);
            },
        };
        let fields = build_preview_fields(&rec, field_map);
        items.push(PreviewItem { id, fields });
        i = i + 1;
    }
    Ok(PreviewPage { items, total_count: total, page, page_size })
}

/// `x` placed into an ascending id list, once.
pub open spec fn seq_add(s: Seq<usize>, x: usize) -> Seq<usize>
    decreases s.len(),
{
    if s.len() == 0 {
        seq![x]
    } else if s[0] == x {
        s
    } else if s[0] > x {
        seq![x] + s
    } else {
        seq![s[0]] + seq_add(s.drop_first(), x)
    }
}

/// `x` dropped from an id list.
pub open spec fn seq_remove(s: Seq<usize>, x: usize) -> Seq<usize>
    decreases s.len(),
{
    if s.len() == 0 {
        s
    } else if s[0] == x {
        seq_remove(s.drop_first(), x)
    } else {
        seq![s[0]] + seq_remove(s.drop_first(), x)
    }
}

/// The selected and removed lists after a run of manual changes: a kept id
/// moves into the selected side, any other into the removed side.
pub open spec fn apply_changes(
    sel: Seq<usize>,
    rem: Seq<usize>,
    changes: Seq<ManualChange>,
    i: nat,
) -> (Seq<usize>, Seq<usize>)
    decreases changes.len() - i,
{
    if i >= changes.len() {
        (sel, rem)
    } else {
        let c = changes[i as int];
        if c.keep {
            apply_changes(seq_add(sel, c.id), seq_remove(rem, c.id), changes, i + 1)
        } else {
            apply_changes(seq_remove(sel, c.id), seq_add(rem, c.id), changes, i + 1)
        }
    }
}

fn seq_add_x(v: Vec<usize>, x: usize) -> (r: Vec<usize>)
    ensures
        r@ == seq_add(v@, x),
{
    let mut out: Vec<usize> = Vec::new();
    let n = v.len();
    let mut i: usize = 0;
    proof {
        assert(v@.skip(0) =~= v@);
        assert(v@.subrange(0, 0) =~= Seq::<usize>::empty());
    }
    // copy the part before the insertion point
    while i < n && v[i] < x
        invariant
            i <= n,
            n == v@.len(),
            out@ =~= v@.subrange(0, i as int),
            forall|k: int| 0 <= k < i ==> (#[trigger] v@[k]) < x,
            seq_add(v@, x) == out@ + seq_add(v@.skip(i as int), x),
        decreases n - i,
    {
        proof {
            let rest = v@.skip(i as int);
            assert(rest[0] == v@[i as int]);
            assert(rest.drop_first() =~= v@.skip(i as int + 1));
            assert(seq_add(rest, x) == seq![rest[0]] + seq_add(rest.drop_first(), x));
            assert(out@.push(v@[i as int]) + seq_add(v@.skip(i as int + 1), x) =~= out@ + (seq![
                rest[0],
            ] + seq_add(rest.drop_first(), x)));
        }
        out.push(v[i]);
        proof {
            assert(out@ =~= v@.subrange(0, i as int + 1));
        }
        i = i + 1;
    }
    let already = i < n && v[i] == x;
    if !already {
        out.push(x);
    }
    let ghost rest = v@.skip(i as int);
    proof {
        if i < n {
            assert(rest[0] == v@[i as int]);
        }
        if already {
            assert(seq_add(rest, x) == rest);
        } else if i < n {
            assert(v@[i as int] > x);
            assert(seq_add(rest, x) == seq![x] + rest);
        } else {
            assert(rest =~= Seq::<usize>::empty());
            assert(seq_add(rest, x) == seq![x]);
        }
    }
    let mut j: usize = i;
    while j < n
        invariant
            i <= j <= n,
            n == v@.len(),
            rest == v@.skip(i as int),
            out@ + v@.skip(j as int) =~= (if already {
                v@.subrange(0, i as int) + seq_add(rest, x)
            } else {
                v@.subrange(0, i as int) + seq_add(rest, x)
            }),
            seq_add(v@, x) == v@.subrange(0, i as int) + seq_add(rest, x),
        decreases n - j,
    {
        proof {
            assert(v@.skip(j as int)[0] == v@[j as int]);
            assert(v@.skip(j as int).drop_first() =~= v@.skip(j as int + 1));
        }
        out.push(v[j]);
        proof {
            assert(out@ + v@.skip(j as int + 1) =~= seq_add(v@, x));
        }
        j = j + 1;
    }
    proof {
        assert(v@.skip(n as int) =~= Seq::<usize>::empty());
        assert(out@ =~= seq_add(v@, x));
    }
    out
}

fn seq_remove_x(v: Vec<usize>, x: usize) -> (r: Vec<usize>)
    ensures
        r@ == seq_remove(v@, x),
{
    let mut out: Vec<usize> = Vec::new();
    let n = v.len();
    let mut i: usize = 0;
    proof {
        assert(v@.skip(0) =~= v@);
    }
    while i < n
        invariant
            i <= n,
            n == v@.len(),
            seq_remove(v@, x) == out@ + seq_remove(v@.skip(i as int), x),
        decreases n - i,
    {
        proof {
            let rest = v@.skip(i as int);
            assert(rest[0] == v@[i as int]);
            assert(rest.drop_first() =~= v@.skip(i as int + 1));
        }
        if v[i] != x {
            out.push(v[i]);
            proof {
                let rest = v@.skip(i as int);
                assert(out@ + seq_remove(v@.skip(i as int + 1), x) =~= seq_remove(v@, x));
            }
        }
        i = i + 1;
    }
    proof {
        assert(v@.skip(n as int) =~= Seq::<usize>::empty());
        assert(out@ + Seq::<usize>::empty() =~= out@);
    }
    out
}

/// Apply manual changes to the selected and removed lists; runtime form of
/// [`apply_changes`], with the new summary.
pub fn update_manual_selection(
    selected: Vec<usize>,
    removed: Vec<usize>,
    changes: &Vec<ManualChange>,
) -> (r: (Vec<usize>, Vec<usize>, DistillSummary))
    ensures
        ({
            let p = apply_changes(selected@, removed@, changes.deep_view(), 0);
            &&& r.0@ == p.0
            &&& r.1@ == p.1
            &&& r.2.selected_count == p.0.len()
            &&& r.2.removed_count == p.1.len()
            &&& r.2.total_count as int == (if p.0.len() + p.1.len() > usize::MAX {
                usize::MAX as int
            } else {
                (p.0.len() + p.1.len()) as int
            })
        }),
{
    let mut sel = selected;
    let mut rem = removed;
    let n = changes.len();
    let mut i: usize = 0;
    let ghost sel0 = sel@;
    let ghost rem0 = rem@;
    while i < n
        invariant
            i <= n,
            n == changes@.len(),
            apply_changes(sel0, rem0, changes.deep_view(), 0) == apply_changes(
                sel@,
                rem@,
                changes.deep_view(),
                i as nat,
            ),
        decreases n - i,
    {
        proof {
            assert(changes.deep_view()[i as int] == changes@[i as int]);
        }
        let c_id = changes[i].id;
        let c_keep = changes[i].keep;
        if c_keep {
            sel = seq_add_x(sel, c_id);
            rem = seq_remove_x(rem, c_id);
        } else {
            sel = seq_remove_x(sel, c_id);
            rem = seq_add_x(rem, c_id);
        }
        i = i + 1;
    }
    let total: usize = match sel.len().checked_add(rem.len()) {
        Some(v) => v,
        None => usize::MAX,
    };
    let summary = DistillSummary {
        total_count: total,
        selected_count: sel.len(),
        removed_count: rem.len(),
    };
    (sel, rem, summary)
}

} // verus!
