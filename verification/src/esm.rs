//! A whole plugin file: its header record, then its top groups.
use std::collections::HashMap;

use vstd::prelude::*;

use crate::parse::{lemma_many0_of_whole_items, many0, reads_exactly, spec_many0, Parse, ParseError, ParseTotal, Parsed};
use crate::structs::cell::RawCellTopGroup;
use crate::structs::field::ByteField;
use crate::structs::group::{
    lemma_alloc_group_prefix, spec_alloc_group, spec_group_header, GroupHeader, GroupLabel,
    RawDataGroup, RawGroupMT,
};
use crate::structs::record::{Record, RawRecord, RecordHeader};
use crate::structs::shared::{FormId, FourCC, CELL, WRLD};
use crate::structs::world::RawWorldGroup;

verus! {

broadcast use vstd::std_specs::hash::group_hash_axioms;

/// The model of a raw record: its header and its body bytes.
pub type RawRecordView = (RecordHeader, Seq<u8>);

/// The model of what the top groups of a file give: the records of the data
/// groups by form id, the worldspace group and the interior cell group.
pub type TopGroupsView<'esm> = (
    Map<u32, RawRecordView>,
    Option<<RawWorldGroup<'esm> as DeepView>::V>,
    Option<<RawCellTopGroup<'esm> as DeepView>::V>,
);

/// Files `records` under their form ids, in order: a later record replaces an
/// earlier one with the same id.
pub open spec fn file_records(m: Map<u32, RawRecordView>, records: Seq<RawRecordView>) -> Map<
    u32,
    RawRecordView,
>
    decreases records.len(),
{
    if records.len() == 0 {
        m
    } else {
        file_records(m, records.drop_last()).insert(records.last().0.form_id.0, records.last())
    }
}

/// After filing, an id maps to the last of `records` that carries it; an id
/// that none of them carries keeps what `m` had for it.
pub proof fn lemma_file_records_keeps_last(
    m: Map<u32, RawRecordView>,
    records: Seq<RawRecordView>,
    id: u32,
)
    ensures
        forall|j: int|
            0 <= j < records.len() && (#[trigger] records[j]).0.form_id.0 == id && (forall|l: int|
                j < l < records.len() ==> records[l].0.form_id.0 != id) ==> file_records(
                m,
                records,
            ).contains_key(id) && file_records(m, records)[id] == records[j],
        (forall|j: int| 0 <= j < records.len() ==> (#[trigger] records[j]).0.form_id.0 != id) ==> {
            &&& file_records(m, records).contains_key(id) == m.contains_key(id)
            &&& m.contains_key(id) ==> file_records(m, records)[id] == m[id]
        },
    decreases records.len(),
{
    if records.len() > 0 {
        let init = records.drop_last();
        lemma_file_records_keeps_last(m, init, id);
        assert forall|j: int|
            0 <= j < records.len() && (#[trigger] records[j]).0.form_id.0 == id && (forall|l: int|
                j < l < records.len() ==> records[l].0.form_id.0 != id) implies file_records(
                m,
                records,
            ).contains_key(id) && file_records(m, records)[id] == records[j] by {
            if j < records.len() - 1 {
                assert(records[records.len() - 1].0.form_id.0 != id);
                assert(init[j] == records[j]);
                assert forall|l: int| j < l < init.len() implies init[l].0.form_id.0 != id by {
                    assert(init[l] == records[l]);
                }
            }
        }
        if forall|j: int| 0 <= j < records.len() ==> (#[trigger] records[j]).0.form_id.0 != id {
            assert(records[records.len() - 1].0.form_id.0 != id);
            assert forall|j: int| 0 <= j < init.len() implies (#[trigger] init[j]).0.form_id.0 != id by {
                assert(init[j] == records[j]);
            }
        }
    }
}

/// Reads the top group at the start of `input` into `state`.
///
/// A group whose label is `Top(WRLD)` becomes the worldspace group and one
/// whose label is `Top(CELL)` the interior cell group, replacing what `state`
/// had; the records of any other top group are filed by form id. A group
/// with a label other than `Top` is outside the domain.
pub open spec fn spec_top_group<'esm>(input: Seq<u8>, state: TopGroupsView<'esm>) -> Parsed<
    TopGroupsView<'esm>,
> {
    match spec_group_header(input) {
        Parsed::Value(_, gh) => match gh.label {
            GroupLabel::Top(iden) => if iden.0 == WRLD {
                match <RawWorldGroup as Parse>::spec_parse(input) {
                    Parsed::Value(n, world) => Parsed::Value(n, (state.0, Some(world), state.2)),
                    Parsed::Error(e) => Parsed::Error(e),
                    Parsed::Undefined => Parsed::Undefined,
                }
            } else if iden.0 == CELL {
                match <RawCellTopGroup as Parse>::spec_parse(input) {
                    Parsed::Value(n, cell) => Parsed::Value(n, (state.0, state.1, Some(cell))),
                    Parsed::Error(e) => Parsed::Error(e),
                    Parsed::Undefined => Parsed::Undefined,
                }
            } else {
                match <RawDataGroup as Parse>::spec_parse(input) {
                    Parsed::Value(n, (_, records)) => Parsed::Value(
                        n,
                        (file_records(state.0, records), state.1, state.2),
                    ),
                    Parsed::Error(e) => Parsed::Error(e),
                    Parsed::Undefined => Parsed::Undefined,
                }
            },
            _ => Parsed::Undefined,
        },
        Parsed::Error(e) => Parsed::Error(e),
        Parsed::Undefined => Parsed::Undefined,
    }
}

/// Reads top groups one after the other until the input ends, starting from
/// what `state` holds (see `spec_top_group`). The count in the outcome is not
/// used (it is 0).
pub open spec fn spec_top_groups<'esm>(input: Seq<u8>, state: TopGroupsView<'esm>) -> Parsed<
    TopGroupsView<'esm>,
>
    decreases input.len(),
{
    if input.len() == 0 {
        Parsed::Value(0, state)
    } else {
        match spec_top_group(input, state) {
            Parsed::Value(n, next) => if 0 < n <= input.len() {
                spec_top_groups(input.skip(n as int), next)
            } else {
                Parsed::Error(ParseError::Invalid)
            },
            Parsed::Error(e) => Parsed::Error(e),
            Parsed::Undefined => Parsed::Undefined,
        }
    }
}

/// A whole file: its header record, the records of its data groups by form
/// id, and its worldspace and interior cell groups, all kept raw.
#[derive(Debug)]
pub struct RawESM<'esm> {
    pub header: Record<ByteField>,
    pub data_map: HashMap<u32, RawRecord<'esm>>,
    pub worlds: Option<RawWorldGroup<'esm>>,
    pub cells: Option<RawCellTopGroup<'esm>>,
}

impl<'esm> RawESM<'esm> {
    /// The records of the data groups, by form id.
    pub open spec fn records(&self) -> Map<u32, RawRecordView> {
        self.data_map@.map_values(|r: RawRecord<'esm>| r.deep_view())
    }

    /// The raw record filed under `id`.
    pub fn get_data_record(&self, id: FormId) -> (r: Option<&RawRecord<'esm>>)
        ensures
            match r {
                Some(rec) => self.data_map@.contains_key(id.0) && *rec == self.data_map@[id.0],
                None => !self.data_map@.contains_key(id.0),
            },
    {
        self.data_map.get(&id.0)
    }
}

impl<'esm> DeepView for RawESM<'esm> {
    type V = (
        <Record<ByteField> as DeepView>::V,
        Map<u32, RawRecordView>,
        Option<<RawWorldGroup<'esm> as DeepView>::V>,
        Option<<RawCellTopGroup<'esm> as DeepView>::V>,
    );

    open spec fn deep_view(&self) -> Self::V {
        (self.header.deep_view(), self.records(), self.worlds.deep_view(), self.cells.deep_view())
    }
}

/// Files each of `records` in `data_map` under its form id, in order.
fn file_group_records<'esm>(data_map: &mut HashMap<u32, RawRecord<'esm>>, records: Vec<RawRecord<'esm>>)
    ensures
        final(data_map)@.map_values(|r: RawRecord<'esm>| r.deep_view()) == file_records(
            old(data_map)@.map_values(|r: RawRecord<'esm>| r.deep_view()),
            records.deep_view(),
        ),
{
    let ghost m0 = data_map@.map_values(|r: RawRecord<'esm>| r.deep_view());
    let mut j: usize = 0;
    assert(records.deep_view().take(0) =~= Seq::<RawRecordView>::empty());
    while j < records.len()
        invariant
            j <= records.len(),
            m0 == old(data_map)@.map_values(|r: RawRecord<'esm>| r.deep_view()),
            data_map@.map_values(|r: RawRecord<'esm>| r.deep_view()) == file_records(
                m0,
                records.deep_view().take(j as int),
            ),
        decreases records.len() - j,
    {
        let record = records[j];
        let ghost prev = data_map@;
        data_map.insert(record.header.form_id.0, record);
        proof {
            let dv = |r: RawRecord<'esm>| r.deep_view();
            assert(records.deep_view().take(j + 1).drop_last() =~= records.deep_view().take(
                j as int,
            ));
            assert(data_map@.map_values(dv) =~= prev.map_values(dv).insert(
                record.header.form_id.0,
                record.deep_view(),
            ));
        }
        j = j + 1;
    }
    assert(records.deep_view().take(records.len() as int) =~= records.deep_view());
}

impl<'esm> Parse<'esm> for RawESM<'esm> {
    /// The header record, then top groups to the end of the input. The
    /// outcome consumes the header record only.
    open spec fn spec_parse(input: Seq<u8>) -> Parsed<Self::V> {
        match <Record<ByteField> as Parse>::spec_parse(input) {
            Parsed::Value(n, header) => match spec_top_groups(
                input.skip(n as int),
                (Map::empty(), None, None),
            ) {
                Parsed::Value(_, (records, worlds, cells)) => Parsed::Value(
                    n,
                    (header, records, worlds, cells),
                ),
                Parsed::Error(e) => Parsed::Error(e),
                Parsed::Undefined => Parsed::Undefined,
            },
            Parsed::Error(e) => Parsed::Error(e),
            Parsed::Undefined => Parsed::Undefined,
        }
    }

    fn parse(input: &'esm [u8]) -> (r: Result<(&'esm [u8], RawESM<'esm>), ParseError>) {
        proof {
            <Record<ByteField> as ParseTotal>::lemma_parse_defined(input@);
        }
        let (i, header) = <Record<ByteField>>::parse(input)?;
        let ghost n = match <Record<ByteField> as Parse>::spec_parse(input@) {
            Parsed::Value(n, _) => n,
            _ => 0,
        };
        let mut buf = i;
        let mut data_map: HashMap<u32, RawRecord<'esm>> = HashMap::with_capacity(100000);
        let mut worlds: Option<RawWorldGroup<'esm>> = None;
        let mut cells: Option<RawCellTopGroup<'esm>> = None;
        let ghost start: TopGroupsView<'esm> = (Map::empty(), None, None);
        assert(data_map@.map_values(|r: RawRecord<'esm>| r.deep_view()) =~= Map::empty());
        while buf.len() > 0
            invariant
                <Record<ByteField> as Parse>::spec_parse(input@) == Parsed::Value(n, header.deep_view()),
                n <= input@.len(),
                i@ == input@.skip(n as int),
                start == (Map::<u32, RawRecordView>::empty(), None::<<RawWorldGroup<'esm> as DeepView>::V>, None::<<RawCellTopGroup<'esm> as DeepView>::V>),
                spec_top_groups(i@, start) == spec_top_groups(
                    buf@,
                    (
                        data_map@.map_values(|r: RawRecord<'esm>| r.deep_view()),
                        worlds.deep_view(),
                        cells.deep_view(),
                    ),
                ),
                spec_top_groups(i@, start).is_defined(),
                <RawESM as Parse>::spec_parse(input@).is_defined(),
            decreases buf@.len(),
        {
            let (_, raw_header) = GroupHeader::parse(buf)?;
            match raw_header.label {
                GroupLabel::Top(iden) => {
                    if iden.0 == WRLD {
                        let (rest, world) = RawWorldGroup::parse(buf)?;
                        buf = rest;
                        worlds = Some(world);
                    } else if iden.0 == CELL {
                        let (rest, cell) = RawCellTopGroup::parse(buf)?;
                        buf = rest;
                        cells = Some(cell);
                    } else {
                        let (rest, group) = RawDataGroup::parse(buf)?;
                        file_group_records(&mut data_map, group.records);
                        buf = rest;
                    }
                },
                _ => {
                    return Err(ParseError::Invalid);
                },
            }
        }
        Ok((i, RawESM { header, data_map, worlds, cells }))
    }
}

/// A file split into its header record and its top groups, each group kept
/// whole with its header: as many groups as follow one another.
pub open spec fn spec_split_top_groups(input: Seq<u8>) -> Parsed<
    (<Record<ByteField> as DeepView>::V, Seq<Seq<u8>>),
> {
    match <Record<ByteField> as Parse>::spec_parse(input) {
        Parsed::Value(n, header) => match spec_many0::<RawGroupMT>(input.skip(n as int)) {
            Parsed::Value(m, groups) => Parsed::Value(n + m, (header, groups)),
            Parsed::Error(e) => Parsed::Error(e),
            Parsed::Undefined => Parsed::Undefined,
        },
        Parsed::Error(e) => Parsed::Error(e),
        Parsed::Undefined => Parsed::Undefined,
    }
}

/// Splits a file into its header record and its whole top groups, so that
/// the groups can be read apart from one another.
pub fn split_top_groups<'esm>(i: &'esm [u8]) -> (r: Result<
    (&'esm [u8], (Record<ByteField>, Vec<RawGroupMT<'esm>>)),
    ParseError,
>)
    requires
        spec_split_top_groups(i@).is_defined(),
    ensures
        match r {
            Ok((rest, (header, groups))) => spec_split_top_groups(i@) matches Parsed::Value(
                n,
                (sh, sg),
            ) && n <= i@.len() && rest@ == i@.skip(n as int) && header.deep_view() == sh
                && groups.deep_view() == sg,
            Err(e) => spec_split_top_groups(i@) == Parsed::<(<Record<ByteField> as DeepView>::V, Seq<Seq<u8>>)>::Error(e),
        },
{
    proof {
        <Record<ByteField> as ParseTotal>::lemma_parse_defined(i@);
    }
    let ghost input = i@;
    let (i1, header) = <Record<ByteField>>::parse(i)?;
    let (i2, groups) = many0::<RawGroupMT>(i1)?;
    let ghost n = match <Record<ByteField> as Parse>::spec_parse(input) {
        Parsed::Value(n, _) => n,
        _ => 0,
    };
    let ghost m = match spec_many0::<RawGroupMT>(i1@) {
        Parsed::Value(m, _) => m,
        _ => 0,
    };
    assert(input.skip(n as int).skip(m as int) =~= input.skip((n + m) as int));
    Ok((i2, (header, groups)))
}

/// The bytes of `groups`, one after the other.
pub open spec fn concat_groups(groups: Seq<Seq<u8>>) -> Seq<u8>
    decreases groups.len(),
{
    if groups.len() == 0 {
        Seq::empty()
    } else {
        groups[0] + concat_groups(groups.drop_first())
    }
}

/// `g` is one whole top group: reading it as a top group uses all its bytes.
pub open spec fn is_whole_top_group(g: Seq<u8>) -> bool {
    spec_top_group(g, (Map::empty(), None, None)) matches Parsed::Value(n, _) && n == g.len()
}

/// The records of `g` where it is a data group (a top group whose code is
/// neither `WRLD` nor `CELL`); none otherwise.
pub open spec fn group_records(g: Seq<u8>) -> Seq<RawRecordView> {
    match spec_group_header(g) {
        Parsed::Value(_, gh) => match gh.label {
            GroupLabel::Top(iden) => if iden.0 == WRLD || iden.0 == CELL {
                Seq::empty()
            } else {
                match <RawDataGroup as Parse>::spec_parse(g) {
                    Parsed::Value(_, (_, records)) => records,
                    _ => Seq::empty(),
                }
            },
            _ => Seq::empty(),
        },
        _ => Seq::empty(),
    }
}

/// The records of the data groups among `groups`, in file order.
pub open spec fn data_group_records(groups: Seq<Seq<u8>>) -> Seq<RawRecordView>
    decreases groups.len(),
{
    if groups.len() == 0 {
        Seq::empty()
    } else {
        group_records(groups[0]) + data_group_records(groups.drop_first())
    }
}

/// The worldspace group after the group `g`: its reading where `g` is
/// labelled `Top(WRLD)`, `w` otherwise.
pub open spec fn world_after<'esm>(
    g: Seq<u8>,
    w: Option<<RawWorldGroup<'esm> as DeepView>::V>,
) -> Option<<RawWorldGroup<'esm> as DeepView>::V> {
    match (spec_group_header(g), <RawWorldGroup as Parse>::spec_parse(g)) {
        (Parsed::Value(_, gh), Parsed::Value(_, world)) => if gh.label == GroupLabel::Top(
            FourCC(WRLD),
        ) {
            Some(world)
        } else {
            w
        },
        _ => w,
    }
}

/// The interior cell group after the group `g`: its reading where `g` is
/// labelled `Top(CELL)`, `c` otherwise.
pub open spec fn cell_after<'esm>(
    g: Seq<u8>,
    c: Option<<RawCellTopGroup<'esm> as DeepView>::V>,
) -> Option<<RawCellTopGroup<'esm> as DeepView>::V> {
    match (spec_group_header(g), <RawCellTopGroup as Parse>::spec_parse(g)) {
        (Parsed::Value(_, gh), Parsed::Value(_, cell)) => if gh.label == GroupLabel::Top(
            FourCC(CELL),
        ) {
            Some(cell)
        } else {
            c
        },
        _ => c,
    }
}

/// The worldspace group that the last group labelled `Top(WRLD)` among
/// `groups` gives; `w` where there is none.
pub open spec fn last_world<'esm>(
    groups: Seq<Seq<u8>>,
    w: Option<<RawWorldGroup<'esm> as DeepView>::V>,
) -> Option<<RawWorldGroup<'esm> as DeepView>::V>
    decreases groups.len(),
{
    if groups.len() == 0 {
        w
    } else {
        last_world(groups.drop_first(), world_after(groups[0], w))
    }
}

/// The interior cell group that the last group labelled `Top(CELL)` among
/// `groups` gives; `c` where there is none.
pub open spec fn last_cell<'esm>(
    groups: Seq<Seq<u8>>,
    c: Option<<RawCellTopGroup<'esm> as DeepView>::V>,
) -> Option<<RawCellTopGroup<'esm> as DeepView>::V>
    decreases groups.len(),
{
    if groups.len() == 0 {
        c
    } else {
        last_cell(groups.drop_first(), cell_after(groups[0], c))
    }
}

/// `g` starts with a group header labelled `Top` with the code `code`.
pub open spec fn labelled_top(g: Seq<u8>, code: u32) -> bool {
    spec_group_header(g) matches Parsed::Value(_, gh) && gh.label == GroupLabel::Top(FourCC(code))
}

/// After a whole top group, the worldspace group is the group's reading where
/// it is labelled `Top(WRLD)`, and unchanged otherwise.
proof fn lemma_world_after_whole_group<'esm>(g: Seq<u8>, w: Option<<RawWorldGroup<'esm> as DeepView>::V>)
    requires
        is_whole_top_group(g),
    ensures
        labelled_top(g, WRLD) ==> world_after(g, w) == Some((<RawWorldGroup as Parse>::spec_parse(g))->Value_1),
        !labelled_top(g, WRLD) ==> world_after(g, w) == w,
{
}

/// Among top groups that each update it as a whole top group does, the worldspace group kept is the reading of the
/// last group labelled `Top(WRLD)`; where no group is so labelled, it is `w`.
proof fn lemma_last_world_of_steps<'esm>(
    groups: Seq<Seq<u8>>,
    w: Option<<RawWorldGroup<'esm> as DeepView>::V>,
)
    requires
        forall|k: int, v: Option<<RawWorldGroup<'esm> as DeepView>::V>|
            0 <= k < groups.len() ==> #[trigger] world_after(groups[k], v) == if labelled_top(groups[k], WRLD) {
                Some((<RawWorldGroup as Parse>::spec_parse(groups[k]))->Value_1)
            } else {
                v
            },
    ensures
        (forall|k: int| 0 <= k < groups.len() ==> !labelled_top(#[trigger] groups[k], WRLD))
            ==> last_world(groups, w) == w,
        forall|k: int|
            0 <= k < groups.len() && labelled_top(#[trigger] groups[k], WRLD) && (forall|l: int|
                k < l < groups.len() ==> !labelled_top(groups[l], WRLD)) ==> last_world(groups, w)
                == Some((<RawWorldGroup as Parse>::spec_parse(groups[k]))->Value_1),
    decreases groups.len(),
{
    if groups.len() > 0 {
        let g = groups[0];
        let tail = groups.drop_first();
        assert(world_after(groups[0], w) == if labelled_top(g, WRLD) {
            Some((<RawWorldGroup as Parse>::spec_parse(g))->Value_1)
        } else {
            w
        });
        let w1 = world_after(g, w);
        assert forall|k: int, v: Option<<RawWorldGroup<'esm> as DeepView>::V>|
            0 <= k < tail.len() implies #[trigger] world_after(tail[k], v) == if labelled_top(tail[k], WRLD) {
                Some((<RawWorldGroup as Parse>::spec_parse(tail[k]))->Value_1)
            } else {
                v
            } by {
            assert(tail[k] == groups[k + 1]);
            assert(world_after(groups[k + 1], v) == if labelled_top(groups[k + 1], WRLD) {
                Some((<RawWorldGroup as Parse>::spec_parse(groups[k + 1]))->Value_1)
            } else {
                v
            });
        }
        lemma_last_world_of_steps(tail, w1);
        assert forall|k: int|
            0 <= k < groups.len() && labelled_top(#[trigger] groups[k], WRLD) && (forall|l: int|
                k < l < groups.len() ==> !labelled_top(groups[l], WRLD)) implies last_world(
                groups,
                w,
            ) == Some((<RawWorldGroup as Parse>::spec_parse(groups[k]))->Value_1) by {
            if k == 0 {
                assert forall|j: int| 0 <= j < tail.len() implies !labelled_top(
                    #[trigger] tail[j],
                    WRLD,
                ) by {
                    assert(tail[j] == groups[j + 1]);
                }
            } else {
                assert(tail[k - 1] == groups[k]);
                assert forall|l: int| k - 1 < l < tail.len() implies !labelled_top(
                    tail[l],
                    WRLD,
                ) by {
                    assert(tail[l] == groups[l + 1]);
                }
            }
        }
        if forall|k: int| 0 <= k < groups.len() ==> !labelled_top(#[trigger] groups[k], WRLD) {
            assert(!labelled_top(groups[0], WRLD));
            assert forall|j: int| 0 <= j < tail.len() implies !labelled_top(#[trigger] tail[j], WRLD) by {
                assert(tail[j] == groups[j + 1]);
            }
        }
    }
}

/// Among whole top groups, the worldspace group kept is the reading of the
/// last group labelled `Top(WRLD)`; where no group is so labelled, it is `w`.
pub proof fn lemma_last_world_is_last_labelled<'esm>(
    groups: Seq<Seq<u8>>,
    w: Option<<RawWorldGroup<'esm> as DeepView>::V>,
)
    requires
        forall|k: int| 0 <= k < groups.len() ==> is_whole_top_group(#[trigger] groups[k]),
    ensures
        (forall|k: int| 0 <= k < groups.len() ==> !labelled_top(#[trigger] groups[k], WRLD))
            ==> last_world(groups, w) == w,
        forall|k: int|
            0 <= k < groups.len() && labelled_top(#[trigger] groups[k], WRLD) && (forall|l: int|
                k < l < groups.len() ==> !labelled_top(groups[l], WRLD)) ==> last_world(groups, w)
                == Some((<RawWorldGroup as Parse>::spec_parse(groups[k]))->Value_1),
{
    assert forall|k: int, v: Option<<RawWorldGroup<'esm> as DeepView>::V>|
        0 <= k < groups.len() implies #[trigger] world_after(groups[k], v) == if labelled_top(groups[k], WRLD) {
            Some((<RawWorldGroup as Parse>::spec_parse(groups[k]))->Value_1)
        } else {
            v
        } by {
        lemma_world_after_whole_group(groups[k], v);
    }
    lemma_last_world_of_steps(groups, w);
}

/// After a whole top group, the interior cell group is the group's reading where
/// it is labelled `Top(CELL)`, and unchanged otherwise.
proof fn lemma_cell_after_whole_group<'esm>(g: Seq<u8>, c: Option<<RawCellTopGroup<'esm> as DeepView>::V>)
    requires
        is_whole_top_group(g),
    ensures
        labelled_top(g, CELL) ==> cell_after(g, c) == Some((<RawCellTopGroup as Parse>::spec_parse(g))->Value_1),
        !labelled_top(g, CELL) ==> cell_after(g, c) == c,
{
}

/// Among top groups that each update it as a whole top group does, the interior cell group kept is the reading of the
/// last group labelled `Top(CELL)`; where no group is so labelled, it is `c`.
proof fn lemma_last_cell_of_steps<'esm>(
    groups: Seq<Seq<u8>>,
    c: Option<<RawCellTopGroup<'esm> as DeepView>::V>,
)
    requires
        forall|k: int, v: Option<<RawCellTopGroup<'esm> as DeepView>::V>|
            0 <= k < groups.len() ==> #[trigger] cell_after(groups[k], v) == if labelled_top(groups[k], CELL) {
                Some((<RawCellTopGroup as Parse>::spec_parse(groups[k]))->Value_1)
            } else {
                v
            },
    ensures
        (forall|k: int| 0 <= k < groups.len() ==> !labelled_top(#[trigger] groups[k], CELL))
            ==> last_cell(groups, c) == c,
        forall|k: int|
            0 <= k < groups.len() && labelled_top(#[trigger] groups[k], CELL) && (forall|l: int|
                k < l < groups.len() ==> !labelled_top(groups[l], CELL)) ==> last_cell(groups, c)
                == Some((<RawCellTopGroup as Parse>::spec_parse(groups[k]))->Value_1),
    decreases groups.len(),
{
    if groups.len() > 0 {
        let g = groups[0];
        let tail = groups.drop_first();
        assert(cell_after(groups[0], c) == if labelled_top(g, CELL) {
            Some((<RawCellTopGroup as Parse>::spec_parse(g))->Value_1)
        } else {
            c
        });
        let c1 = cell_after(g, c);
        assert forall|k: int, v: Option<<RawCellTopGroup<'esm> as DeepView>::V>|
            0 <= k < tail.len() implies #[trigger] cell_after(tail[k], v) == if labelled_top(tail[k], CELL) {
                Some((<RawCellTopGroup as Parse>::spec_parse(tail[k]))->Value_1)
            } else {
                v
            } by {
            assert(tail[k] == groups[k + 1]);
            assert(cell_after(groups[k + 1], v) == if labelled_top(groups[k + 1], CELL) {
                Some((<RawCellTopGroup as Parse>::spec_parse(groups[k + 1]))->Value_1)
            } else {
                v
            });
        }
        lemma_last_cell_of_steps(tail, c1);
        assert forall|k: int|
            0 <= k < groups.len() && labelled_top(#[trigger] groups[k], CELL) && (forall|l: int|
                k < l < groups.len() ==> !labelled_top(groups[l], CELL)) implies last_cell(
                groups,
                c,
            ) == Some((<RawCellTopGroup as Parse>::spec_parse(groups[k]))->Value_1) by {
            if k == 0 {
                assert forall|j: int| 0 <= j < tail.len() implies !labelled_top(
                    #[trigger] tail[j],
                    CELL,
                ) by {
                    assert(tail[j] == groups[j + 1]);
                }
            } else {
                assert(tail[k - 1] == groups[k]);
                assert forall|l: int| k - 1 < l < tail.len() implies !labelled_top(
                    tail[l],
                    CELL,
                ) by {
                    assert(tail[l] == groups[l + 1]);
                }
            }
        }
        if forall|k: int| 0 <= k < groups.len() ==> !labelled_top(#[trigger] groups[k], CELL) {
            assert(!labelled_top(groups[0], CELL));
            assert forall|j: int| 0 <= j < tail.len() implies !labelled_top(#[trigger] tail[j], CELL) by {
                assert(tail[j] == groups[j + 1]);
            }
        }
    }
}

/// Among whole top groups, the interior cell group kept is the reading of the
/// last group labelled `Top(CELL)`; where no group is so labelled, it is `c`.
pub proof fn lemma_last_cell_is_last_labelled<'esm>(
    groups: Seq<Seq<u8>>,
    c: Option<<RawCellTopGroup<'esm> as DeepView>::V>,
)
    requires
        forall|k: int| 0 <= k < groups.len() ==> is_whole_top_group(#[trigger] groups[k]),
    ensures
        (forall|k: int| 0 <= k < groups.len() ==> !labelled_top(#[trigger] groups[k], CELL))
            ==> last_cell(groups, c) == c,
        forall|k: int|
            0 <= k < groups.len() && labelled_top(#[trigger] groups[k], CELL) && (forall|l: int|
                k < l < groups.len() ==> !labelled_top(groups[l], CELL)) ==> last_cell(groups, c)
                == Some((<RawCellTopGroup as Parse>::spec_parse(groups[k]))->Value_1),
{
    assert forall|k: int, v: Option<<RawCellTopGroup<'esm> as DeepView>::V>|
        0 <= k < groups.len() implies #[trigger] cell_after(groups[k], v) == if labelled_top(groups[k], CELL) {
            Some((<RawCellTopGroup as Parse>::spec_parse(groups[k]))->Value_1)
        } else {
            v
        } by {
        lemma_cell_after_whole_group(groups[k], v);
    }
    lemma_last_cell_of_steps(groups, c);
}

/// Filing two runs of records one after the other is filing them together.
pub proof fn lemma_file_records_append(
    m: Map<u32, RawRecordView>,
    a: Seq<RawRecordView>,
    b: Seq<RawRecordView>,
)
    ensures
        file_records(file_records(m, a), b) == file_records(m, a + b),
    decreases b.len(),
{
    if b.len() == 0 {
        assert(a + b =~= a);
    } else {
        lemma_file_records_append(m, a, b.drop_last());
        assert((a + b).drop_last() =~= a + b.drop_last());
        assert((a + b).last() == b.last());
    }
}

/// Reading a top group looks only at the group's own bytes.
proof fn lemma_top_group_prefix<'esm>(g: Seq<u8>, rest: Seq<u8>, state: TopGroupsView<'esm>)
    requires
        spec_alloc_group(g) is Value,
    ensures
        spec_top_group(g + rest, state) == spec_top_group(g, state),
{
    lemma_alloc_group_prefix(g, rest);
    assert(<RawWorldGroup as Parse>::spec_parse(g + rest) == <RawWorldGroup as Parse>::spec_parse(g));
    assert(<RawCellTopGroup as Parse>::spec_parse(g + rest) == <RawCellTopGroup as Parse>::spec_parse(
        g,
    ));
    assert(<RawDataGroup as Parse>::spec_parse(g + rest) == <RawDataGroup as Parse>::spec_parse(g));
}

/// Reading a whole top group into any state uses all of it and updates the
/// state as the group says.
proof fn lemma_top_group_step<'esm>(g: Seq<u8>, rest: Seq<u8>, state: TopGroupsView<'esm>)
    requires
        is_whole_top_group(g),
    ensures
        spec_top_group(g + rest, state) == spec_top_group(g, state),
        spec_top_group(g, state) == Parsed::Value(
            g.len(),
            (
                file_records(state.0, group_records(g)),
                world_after(g, state.1),
                cell_after(g, state.2),
            ),
        ),
{
    assert(spec_alloc_group(g) is Value);
    lemma_top_group_prefix(g, rest, state);
    let gh = spec_group_header(g)->Value_1;
    let iden = gh.label->Top_0;
    if iden.0 == WRLD {
        assert(group_records(g) =~= Seq::<RawRecordView>::empty());
        assert(file_records(state.0, group_records(g)) == state.0);
    } else if iden.0 == CELL {
        assert(group_records(g) =~= Seq::<RawRecordView>::empty());
        assert(file_records(state.0, group_records(g)) == state.0);
    } else {
    }
}

/// Reading top groups that are each whole, one after the other, files the
/// records of all the data groups in file order (a later record replaces an
/// earlier one with the same id) and keeps the last worldspace group and the
/// last interior cell group.
pub proof fn lemma_top_groups_of_whole_groups<'esm>(
    groups: Seq<Seq<u8>>,
    state: TopGroupsView<'esm>,
)
    requires
        forall|k: int| 0 <= k < groups.len() ==> is_whole_top_group(#[trigger] groups[k]),
    ensures
        spec_top_groups(concat_groups(groups), state) == Parsed::Value(
            0,
            (
                file_records(state.0, data_group_records(groups)),
                last_world(groups, state.1),
                last_cell(groups, state.2),
            ),
        ),
    decreases groups.len(),
{
    if groups.len() == 0 {
        assert(concat_groups(groups) =~= Seq::<u8>::empty());
        assert(data_group_records(groups) =~= Seq::<RawRecordView>::empty());
    } else {
        let g = groups[0];
        let tail = groups.drop_first();
        let rest = concat_groups(tail);
        assert(is_whole_top_group(g));
        lemma_top_group_step(g, rest, state);
        let next = (
            file_records(state.0, group_records(g)),
            world_after(g, state.1),
            cell_after(g, state.2),
        );
        assert forall|k: int| 0 <= k < tail.len() implies is_whole_top_group(#[trigger] tail[k]) by {
            assert(tail[k] == groups[k + 1]);
        }
        lemma_top_groups_of_whole_groups(tail, next);
        assert(g.len() > 0);
        assert((g + rest).skip(g.len() as int) =~= rest);
        lemma_file_records_append(state.0, group_records(g), data_group_records(tail));
    }
}

/// A file made of a header record and whole top groups reads as that header,
/// the records of all its data groups filed in file order (so that an id
/// maps to the last record that carries it; see
/// `lemma_file_records_keeps_last`), and its last worldspace and interior
/// cell groups. The outcome consumes the header record only.
pub proof fn lemma_raw_esm_of_whole_groups(header: Seq<u8>, groups: Seq<Seq<u8>>)
    requires
        <Record<ByteField> as Parse>::spec_parse(header) matches Parsed::Value(n, _) && n
            == header.len(),
        forall|k: int| 0 <= k < groups.len() ==> is_whole_top_group(#[trigger] groups[k]),
    ensures
        <RawESM as Parse>::spec_parse(header + concat_groups(groups)) == Parsed::Value(
            header.len(),
            (
                <Record<ByteField> as Parse>::spec_parse(header)->Value_1,
                file_records(Map::empty(), data_group_records(groups)),
                last_world(groups, None),
                last_cell(groups, None),
            ),
        ),
{
    let file = header + concat_groups(groups);
    crate::structs::record::lemma_alloc_record_prefix(header, concat_groups(groups));
    assert(file.skip(header.len() as int) =~= concat_groups(groups));
    lemma_top_groups_of_whole_groups(groups, (Map::empty(), None, None));
}

/// In a file made of a header record and whole top groups, the record filed
/// under an id is there exactly when some record of a data group carries the
/// id, and it is the last such record in file order.
pub proof fn lemma_raw_esm_keeps_last_record(header: Seq<u8>, groups: Seq<Seq<u8>>, id: u32)
    requires
        <Record<ByteField> as Parse>::spec_parse(header) matches Parsed::Value(n, _) && n
            == header.len(),
        forall|k: int| 0 <= k < groups.len() ==> is_whole_top_group(#[trigger] groups[k]),
    ensures
        ({
            let records = data_group_records(groups);
            let filed = (<RawESM as Parse>::spec_parse(header + concat_groups(groups))->Value_1).1;
            &&& filed.contains_key(id) <==> exists|j: int|
                0 <= j < records.len() && (#[trigger] records[j]).0.form_id.0 == id
            &&& forall|j: int|
                0 <= j < records.len() && (#[trigger] records[j]).0.form_id.0 == id && (forall|l: int|
                    j < l < records.len() ==> records[l].0.form_id.0 != id) ==> filed[id]
                    == records[j]
        }),
{
    lemma_raw_esm_of_whole_groups(header, groups);
    let records = data_group_records(groups);
    lemma_file_records_keeps_last(Map::empty(), records, id);
    if exists|j: int| 0 <= j < records.len() && (#[trigger] records[j]).0.form_id.0 == id {
        let j0 = choose|j: int| 0 <= j < records.len() && (#[trigger] records[j]).0.form_id.0 == id;
        lemma_last_with_id_exists(records, id, j0);
    }
}

/// In a file made of a header record and whole top groups, the worldspace
/// group kept is there exactly when some group is labelled `Top(WRLD)`, and
/// it is the reading of the last such group; the same holds of the interior
/// cell group and the label `Top(CELL)`.
pub proof fn lemma_raw_esm_keeps_last_groups(header: Seq<u8>, groups: Seq<Seq<u8>>)
    requires
        <Record<ByteField> as Parse>::spec_parse(header) matches Parsed::Value(n, _) && n
            == header.len(),
        forall|k: int| 0 <= k < groups.len() ==> is_whole_top_group(#[trigger] groups[k]),
    ensures
        ({
            let esm = <RawESM as Parse>::spec_parse(header + concat_groups(groups))->Value_1;
            &&& esm.2 is Some <==> exists|k: int|
                0 <= k < groups.len() && labelled_top(#[trigger] groups[k], WRLD)
            &&& forall|k: int|
                0 <= k < groups.len() && labelled_top(#[trigger] groups[k], WRLD) && (forall|l: int|
                    k < l < groups.len() ==> !labelled_top(groups[l], WRLD)) ==> esm.2 == Some(
                    (<RawWorldGroup as Parse>::spec_parse(groups[k]))->Value_1,
                )
            &&& esm.3 is Some <==> exists|k: int|
                0 <= k < groups.len() && labelled_top(#[trigger] groups[k], CELL)
            &&& forall|k: int|
                0 <= k < groups.len() && labelled_top(#[trigger] groups[k], CELL) && (forall|l: int|
                    k < l < groups.len() ==> !labelled_top(groups[l], CELL)) ==> esm.3 == Some(
                    (<RawCellTopGroup as Parse>::spec_parse(groups[k]))->Value_1,
                )
        }),
{
    lemma_raw_esm_of_whole_groups(header, groups);
    lemma_last_world_is_last_labelled(groups, None);
    lemma_last_cell_is_last_labelled(groups, None);
    if exists|k: int| 0 <= k < groups.len() && labelled_top(#[trigger] groups[k], WRLD) {
        let k0 = choose|k: int| 0 <= k < groups.len() && labelled_top(#[trigger] groups[k], WRLD);
        lemma_last_labelled_exists(groups, WRLD, k0);
    }
    if exists|k: int| 0 <= k < groups.len() && labelled_top(#[trigger] groups[k], CELL) {
        let k0 = choose|k: int| 0 <= k < groups.len() && labelled_top(#[trigger] groups[k], CELL);
        lemma_last_labelled_exists(groups, CELL, k0);
    }
}

/// Where some group from `from` on is labelled `Top(code)`, one of them is the
/// last so labelled.
proof fn lemma_last_labelled_exists(groups: Seq<Seq<u8>>, code: u32, from: int)
    requires
        0 <= from < groups.len(),
        labelled_top(groups[from], code),
    ensures
        exists|k: int|
            from <= k < groups.len() && labelled_top(#[trigger] groups[k], code) && (forall|l: int|
                k < l < groups.len() ==> !labelled_top(groups[l], code)),
    decreases groups.len() - from,
{
    if exists|l: int| from < l < groups.len() && labelled_top(groups[l], code) {
        let l = choose|l: int| from < l < groups.len() && labelled_top(groups[l], code);
        lemma_last_labelled_exists(groups, code, l);
    } else {
        assert(labelled_top(groups[from], code));
    }
}

/// Where some record from `from` on carries `id`, one of them is the last to carry it.
proof fn lemma_last_with_id_exists(records: Seq<RawRecordView>, id: u32, from: int)
    requires
        0 <= from < records.len(),
        records[from].0.form_id.0 == id,
    ensures
        exists|j: int|
            from <= j < records.len() && (#[trigger] records[j]).0.form_id.0 == id && (forall|l: int|
                j < l < records.len() ==> records[l].0.form_id.0 != id),
    decreases records.len() - from,
{
    if exists|l: int| from < l < records.len() && records[l].0.form_id.0 == id {
        let l = choose|l: int| from < l < records.len() && records[l].0.form_id.0 == id;
        lemma_last_with_id_exists(records, id, l);
    } else {
        assert(records[from].0.form_id.0 == id);
    }
}

/// A whole group of fewer than 4 GiB, read whole at the start of the `k`-th of
/// `groups`, is all of that group.
proof fn lemma_whole_group_mt(groups: Seq<Seq<u8>>, k: int)
    requires
        0 <= k < groups.len(),
        reads_exactly::<crate::structs::group::RawGroup>(groups[k], groups[k].len()),
        groups[k].len() <= u32::MAX,
    ensures
        reads_exactly::<RawGroupMT>(groups[k], groups[k].len()),
        <RawGroupMT as Parse>::spec_parse(groups[k]) == Parsed::Value(groups[k].len(), groups[k]),
        <RawGroupMT as Parse>::spec_parse(concat_groups(groups.skip(k)))
            == <RawGroupMT as Parse>::spec_parse(groups[k]),
{
    let g = groups[k];
    assert((spec_group_header(g)->Value_1).size == g.len());
    assert(g.take(g.len() as int) =~= g);
    crate::structs::group::lemma_group_at_start(groups, k);
    let s = groups.skip(k);
    assert(s[0] == g);
    assert(s.drop_first() =~= groups.skip(k + 1));
    assert(concat_groups(s) == g + concat_groups(groups.skip(k + 1)));
    assert(concat_groups(s).take(g.len() as int) =~= g);
}

/// Splitting a file made of a whole header record and whole groups, one after
/// the other, gives the header and every group, in order, each with all its
/// bytes: the file is consumed to its end.
pub proof fn lemma_split_top_groups_of_whole_groups(header: Seq<u8>, groups: Seq<Seq<u8>>)
    requires
        <Record<ByteField> as Parse>::spec_parse(header) matches Parsed::Value(n, _) && n
            == header.len(),
        forall|k: int|
            0 <= k < groups.len() ==> #[trigger] reads_exactly::<crate::structs::group::RawGroup>(
                groups[k],
                groups[k].len(),
            ) && groups[k].len() <= u32::MAX,
    ensures
        spec_split_top_groups(header + concat_groups(groups)) == Parsed::Value(
            (header + concat_groups(groups)).len(),
            ((<Record<ByteField> as Parse>::spec_parse(header))->Value_1, groups),
        ),
{
    let file = header + concat_groups(groups);
    crate::structs::record::lemma_record_prefix::<ByteField>(header, concat_groups(groups));
    assert(file.skip(header.len() as int) =~= concat_groups(groups));
    assert forall|k: int| 0 <= k < groups.len() implies #[trigger] reads_exactly::<RawGroupMT>(
        groups[k],
        groups[k].len(),
    ) by {
        assert(reads_exactly::<crate::structs::group::RawGroup>(groups[k], groups[k].len()));
        lemma_whole_group_mt(groups, k);
    }
    assert forall|k: int| 0 <= k < groups.len() implies #[trigger] <RawGroupMT as Parse>::spec_parse(
        concat_groups(groups.skip(k)),
    ) == <RawGroupMT as Parse>::spec_parse(groups[k]) by {
        assert(reads_exactly::<crate::structs::group::RawGroup>(groups[k], groups[k].len()));
        lemma_whole_group_mt(groups, k);
    }
    assert(<RawGroupMT as Parse>::spec_parse(Seq::empty()) is Error);
    lemma_many0_of_whole_items::<RawGroupMT>(groups);
    assert forall|k: int| 0 <= k < groups.len() implies (#[trigger] <RawGroupMT as Parse>::spec_parse(
        groups[k],
    ))->Value_1 == groups[k] by {
        assert(reads_exactly::<crate::structs::group::RawGroup>(groups[k], groups[k].len()));
        lemma_whole_group_mt(groups, k);
    }
    assert(Seq::new(groups.len(), |j: int| (<RawGroupMT as Parse>::spec_parse(groups[j]))->Value_1)
        =~= groups);
}

} // verus!
