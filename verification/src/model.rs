//! The master table: the immutable snapshot that every query reads.

use vstd::prelude::*;

verus! {

/// One encounter-result row. `ranking` is the 1-based leaderboard position
/// within its (partition, boss, boss flag) leaderboard. `skills` may contain
/// duplicates and multiplicity is meaningful for skill counting; `armour`
/// may contain the 0 sentinel meaning "unresolved gear piece".
pub struct TableRow {
    pub boss_id: u8,
    pub partition_id: u8,
    pub ranking: u8,
    /// reference into `MasterTable::players` by id
    pub player_id: u32,
    pub dps: u32,
    pub boss: bool,
    /// references into `MasterTable::skills` by id
    pub skills: Vec<u16>,
    pub armour: Vec<u16>,
}

#[verifier::ext_equal]
pub ghost struct RowV {
    pub boss_id: u8,
    pub partition_id: u8,
    pub ranking: u8,
    pub player_id: u32,
    pub dps: u32,
    pub boss: bool,
    pub skills: Seq<u16>,
    pub armour: Seq<u16>,
}

impl View for TableRow {
    type V = RowV;

    open spec fn view(&self) -> RowV {
        RowV {
            boss_id: self.boss_id,
            partition_id: self.partition_id,
            ranking: self.ranking,
            player_id: self.player_id,
            dps: self.dps,
            boss: self.boss,
            skills: self.skills@,
            armour: self.armour@,
        }
    }
}

pub struct Player {
    pub id: u32,
    pub name: String,
    /// optional markup-annotated display name; empty means "use `name`"
    pub text: String,
}

#[verifier::ext_equal]
pub ghost struct PlayerV {
    pub id: u32,
    pub name: Seq<char>,
    pub text: Seq<char>,
}

impl View for Player {
    type V = PlayerV;

    open spec fn view(&self) -> PlayerV {
        PlayerV { id: self.id, name: self.name@, text: self.text@ }
    }
}

pub struct Skill {
    pub id: u16,
    pub name: String,
    pub class: Option<String>,
    pub tree: Option<String>,
    pub display_name: Option<String>,
}

#[verifier::ext_equal]
pub ghost struct SkillV {
    pub id: u16,
    pub name: Seq<char>,
    pub class: Option<Seq<char>>,
    pub tree: Option<Seq<char>>,
    pub display_name: Option<Seq<char>>,
}

pub open spec fn opt_view(s: Option<String>) -> Option<Seq<char>> {
    match s {
        Some(x) => Some(x@),
        None => None,
    }
}

impl View for Skill {
    type V = SkillV;

    open spec fn view(&self) -> SkillV {
        SkillV {
            id: self.id,
            name: self.name@,
            class: opt_view(self.class),
            tree: opt_view(self.tree),
            display_name: opt_view(self.display_name),
        }
    }
}

pub struct ItemSet {
    pub id: u16,
    pub name: String,
}

#[verifier::ext_equal]
pub ghost struct SetV {
    pub id: u16,
    pub name: Seq<char>,
}

impl View for ItemSet {
    type V = SetV;

    open spec fn view(&self) -> SetV {
        SetV { id: self.id, name: self.name@ }
    }
}

/// The immutable, loaded snapshot holding rows and the entity lists.
/// Entity ids are dense and 1-based: the entity with id `i` sits at
/// index `i - 1` of its list (see `TableV::wf`).
pub struct MasterTable {
    pub rows: Vec<TableRow>,
    pub players: Vec<Player>,
    pub skills: Vec<Skill>,
    pub sets: Vec<ItemSet>,
}

#[verifier::ext_equal]
pub ghost struct TableV {
    pub rows: Seq<RowV>,
    pub players: Seq<PlayerV>,
    pub skills: Seq<SkillV>,
    pub sets: Seq<SetV>,
}

pub open spec fn view_rows(s: Seq<TableRow>) -> Seq<RowV> {
    s.map_values(|x: TableRow| x@)
}

impl View for MasterTable {
    type V = TableV;

    open spec fn view(&self) -> TableV {
        TableV {
            rows: view_rows(self.rows@),
            players: self.players@.map_values(|x: Player| x@),
            skills: self.skills@.map_values(|x: Skill| x@),
            sets: self.sets@.map_values(|x: ItemSet| x@),
        }
    }
}

impl TableV {
    /// Dense 1-based entity ids: index = id - 1 in each entity list.
    pub open spec fn wf(self) -> bool {
        &&& self.skills.len() <= 0xFFFF
        &&& self.sets.len() <= 0xFFFF
        &&& self.players.len() <= 0xFFFF_FFFF
        &&& forall|i: int| 0 <= i < self.skills.len() ==> (#[trigger] self.skills[i]).id as int == i
            + 1
        &&& forall|i: int| 0 <= i < self.sets.len() ==> (#[trigger] self.sets[i]).id as int == i + 1
        &&& forall|i: int| 0 <= i < self.players.len() ==> (#[trigger] self.players[i]).id as int
            == i + 1
    }
}

/// A row is included by a partition filter when the filter is empty
/// ("all partitions") or names the row's partition.
pub open spec fn included(row: RowV, filter: Seq<u8>) -> bool {
    filter.len() == 0 || filter.contains(row.partition_id)
}

pub fn row_included(row: &TableRow, filter: &[u8]) -> (r: bool)
    ensures
        r == included(row@, filter@),
{
    if filter.len() == 0 {
        return true;
    }
    let mut i: usize = 0;
    while i < filter.len()
        invariant
            0 <= i <= filter@.len(),
            forall|j: int| 0 <= j < i ==> filter@[j] != row.partition_id,
        decreases filter@.len() - i,
    {
        if filter[i] == row.partition_id {
            return true;
        }
        i += 1;
    }
    false
}

pub fn clone_string(s: &String) -> (r: String)
    ensures
        r == *s,
{
    s.clone()
}

pub fn clone_opt_string(s: &Option<String>) -> (r: Option<String>)
    ensures
        r == *s,
{
    match s {
        Some(x) => Some(x.clone()),
        None => None,
    }
}

impl Skill {
    pub fn duplicate(&self) -> (r: Skill)
        ensures
            r@ == self@,
    {
        Skill {
            id: self.id,
            name: clone_string(&self.name),
            class: clone_opt_string(&self.class),
            tree: clone_opt_string(&self.tree),
            display_name: clone_opt_string(&self.display_name),
        }
    }
}

impl ItemSet {
    pub fn duplicate(&self) -> (r: ItemSet)
        ensures
            r@ == self@,
    {
        ItemSet { id: self.id, name: clone_string(&self.name) }
    }
}

impl Player {
    pub fn duplicate(&self) -> (r: Player)
        ensures
            r@ == self@,
    {
        Player { id: self.id, name: clone_string(&self.name), text: clone_string(&self.text) }
    }
}

impl TableRow {
    pub fn duplicate(&self) -> (r: TableRow)
        ensures
            r@ == self@,
    {
        let mut skills: Vec<u16> = Vec::new();
        let mut i: usize = 0;
        while i < self.skills.len()
            invariant
                0 <= i <= self.skills@.len(),
                skills@ == self.skills@.take(i as int),
            decreases self.skills@.len() - i,
        {
            skills.push(self.skills[i]);
            proof {
                assert(skills@ =~= self.skills@.take(i + 1));
            }
            i += 1;
        }
        let mut armour: Vec<u16> = Vec::new();
        let mut j: usize = 0;
        while j < self.armour.len()
            invariant
                0 <= j <= self.armour@.len(),
                armour@ == self.armour@.take(j as int),
            decreases self.armour@.len() - j,
        {
            armour.push(self.armour[j]);
            proof {
                assert(armour@ =~= self.armour@.take(j + 1));
            }
            j += 1;
        }
        proof {
            assert(skills@ =~= self.skills@);
            assert(armour@ =~= self.armour@);
        }
        let r = TableRow {
            boss_id: self.boss_id,
            partition_id: self.partition_id,
            ranking: self.ranking,
            player_id: self.player_id,
            dps: self.dps,
            boss: self.boss,
            skills,
            armour,
        };
        proof {
            assert(r@ =~= self@);
        }
        r
    }
}

/// The rows that reference one player, in table order.
pub open spec fn rows_of_player(rows: Seq<RowV>, player_id: u32) -> Seq<RowV> {
    rows.filter(|r: RowV| r.player_id == player_id)
}

/// All rows of one player, in table order.
pub fn player_rows(master: &MasterTable, player_id: u32) -> (r: Vec<TableRow>)
    ensures
        view_rows(r@) == rows_of_player(master@.rows, player_id),
{
    let mut out: Vec<TableRow> = Vec::new();
    let mut i: usize = 0;
    proof {
        assert(view_rows(out@) =~= Seq::<RowV>::empty());
        assert(master@.rows.take(0).filter(|row: RowV| row.player_id == player_id) =~= Seq::<
            RowV,
        >::empty());
        reveal_with_fuel(Seq::filter, 2);
    }
    while i < master.rows.len()
        invariant
            0 <= i <= master.rows@.len(),
            master@.rows.len() == master.rows@.len(),
            view_rows(out@) == master@.rows.take(i as int).filter(
                |row: RowV| row.player_id == player_id,
            ),
        decreases master.rows@.len() - i,
    {
        proof {
            assert(master@.rows.take(i + 1).drop_last() =~= master@.rows.take(i as int));
            reveal_with_fuel(Seq::filter, 2);
            assert(master@.rows.take(i + 1).last() == master@.rows[i as int]);
            assert(master@.rows[i as int] == master.rows@[i as int]@);
        }
        if master.rows[i].player_id == player_id {
            let d = master.rows[i].duplicate();
            let ghost prev = out@;
            out.push(d);
            proof {
                assert(view_rows(out@) =~= view_rows(prev).push(d@));
            }
        }
        i += 1;
    }
    proof {
        assert(master@.rows.take(master.rows@.len() as int) =~= master@.rows);
    }
    out
}

} // verus!
