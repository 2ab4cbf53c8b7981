use vstd::prelude::*;

use crate::error::AppError;
use crate::team::{seed_or_zero, Team, TeamView};
use crate::text::same_text;

verus! {

/// The first position in `unique` of a team called `name`, or -1.
pub open spec fn index_of_name(unique: Seq<TeamView>, name: Seq<char>) -> int
    decreases unique.len(),
{
    if unique.len() == 0 {
        -1
    } else {
        let k = index_of_name(unique.drop_last(), name);
        if k >= 0 {
            k
        } else if unique.last().0 == name {
            unique.len() - 1
        } else {
            -1
        }
    }
}

/// The team list with exact repeats dropped, keeping the first entry of each
/// name in input order; or, at the first entry whose name an earlier entry
/// carries with another seed, that name and the two seeds. An absent seed
/// counts as 0.
pub open spec fn deduplicated(teams: Seq<TeamView>) -> Result<
    Seq<TeamView>,
    (Seq<char>, u32, u32),
>
    decreases teams.len(),
{
    if teams.len() == 0 {
        Ok(seq![])
    } else {
        match deduplicated(teams.drop_last()) {
            Err(conflict) => Err(conflict),
            Ok(unique) => {
                let team = teams.last();
                let k = index_of_name(unique, team.0);
                if k < 0 {
                    Ok(unique.push(team))
                } else if seed_or_zero(unique[k].1) == seed_or_zero(team.1) {
                    Ok(unique)
                } else {
                    Err((team.0, seed_or_zero(unique[k].1), seed_or_zero(team.1)))
                }
            },
        }
    }
}

/// Two entries of the list carry one name with two different seeds.
pub open spec fn has_conflicting_seeds(teams: Seq<TeamView>) -> bool {
    exists|i: int, j: int|
        0 <= i < j < teams.len() && #[trigger] teams[i].0 == #[trigger] teams[j].0
            && seed_or_zero(teams[i].1) != seed_or_zero(teams[j].1)
}

proof fn lemma_index_of_name(unique: Seq<TeamView>, name: Seq<char>)
    ensures
        -1 <= index_of_name(unique, name) < unique.len(),
        index_of_name(unique, name) >= 0 ==> unique[index_of_name(unique, name)].0 == name,
        forall|j: int|
            0 <= j < unique.len() && (index_of_name(unique, name) < 0 || j < index_of_name(
                unique,
                name,
            )) ==> #[trigger] unique[j].0 != name,
    decreases unique.len(),
{
    if unique.len() > 0 {
        lemma_index_of_name(unique.drop_last(), name);
        let k = index_of_name(unique.drop_last(), name);
        assert forall|j: int|
            0 <= j < unique.len() && (index_of_name(unique, name) < 0 || j < index_of_name(
                unique,
                name,
            )) implies #[trigger] unique[j].0 != name by {
            if j < unique.len() - 1 {
                assert(unique[j] == unique.drop_last()[j]);
            }
        }
    }
}

/// Successful deduplication keeps distinct names.
proof fn lemma_deduplicated_distinct(teams: Seq<TeamView>)
    requires
        deduplicated(teams) is Ok,
    ensures
        forall|j: int, k: int|
            0 <= j < k < deduplicated(teams)->Ok_0.len() ==> #[trigger] deduplicated(
                teams,
            )->Ok_0[j].0 != #[trigger] deduplicated(teams)->Ok_0[k].0,
    decreases teams.len(),
{
    if teams.len() > 0 {
        let before = teams.drop_last();
        lemma_deduplicated_distinct(before);
        let unique = deduplicated(before)->Ok_0;
        let team = teams.last();
        lemma_index_of_name(unique, team.0);
        let result = deduplicated(teams)->Ok_0;
        assert forall|j: int, k: int| 0 <= j < k < result.len() implies #[trigger] result[j].0
            != #[trigger] result[k].0 by {
            assert(result[j] == unique[j]);
            if k < unique.len() {
                assert(result[k] == unique[k]);
            }
        }
    }
}

/// Successful deduplication keeps only entries of the input.
proof fn lemma_deduplicated_from_input(teams: Seq<TeamView>)
    requires
        deduplicated(teams) is Ok,
    ensures
        forall|j: int|
            0 <= j < deduplicated(teams)->Ok_0.len() ==> teams.contains(
                #[trigger] deduplicated(teams)->Ok_0[j],
            ),
    decreases teams.len(),
{
    if teams.len() > 0 {
        let before = teams.drop_last();
        lemma_deduplicated_from_input(before);
        let unique = deduplicated(before)->Ok_0;
        let team = teams.last();
        let result = deduplicated(teams)->Ok_0;
        assert forall|j: int| 0 <= j < result.len() implies teams.contains(#[trigger] result[j]) by {
            if j < unique.len() {
                assert(result[j] == unique[j]);
                let i = choose|i: int| 0 <= i < before.len() && before[i] == unique[j];
                assert(teams[i] == before[i]);
            } else {
                assert(teams[teams.len() - 1] == team);
            }
        }
    }
}

/// Successful deduplication keeps every entry's name, with a seed that
/// counts the same.
proof fn lemma_deduplicated_covers(teams: Seq<TeamView>)
    requires
        deduplicated(teams) is Ok,
    ensures
        forall|i: int|
            0 <= i < teams.len() ==> exists|j: int|
                0 <= j < deduplicated(teams)->Ok_0.len() && #[trigger] deduplicated(
                    teams,
                )->Ok_0[j].0 == #[trigger] teams[i].0 && seed_or_zero(
                    deduplicated(teams)->Ok_0[j].1,
                ) == seed_or_zero(teams[i].1),
    decreases teams.len(),
{
    if teams.len() > 0 {
        let before = teams.drop_last();
        lemma_deduplicated_covers(before);
        let unique = deduplicated(before)->Ok_0;
        let team = teams.last();
        lemma_index_of_name(unique, team.0);
        let k = index_of_name(unique, team.0);
        let result = deduplicated(teams)->Ok_0;
        assert forall|i: int| 0 <= i < teams.len() implies exists|j: int|
            0 <= j < result.len() && #[trigger] result[j].0 == #[trigger] teams[i].0
                && seed_or_zero(result[j].1) == seed_or_zero(teams[i].1) by {
            if i < before.len() {
                assert(teams[i] == before[i]);
                let j = choose|j: int|
                    0 <= j < unique.len() && #[trigger] unique[j].0 == #[trigger] before[i].0
                        && seed_or_zero(unique[j].1) == seed_or_zero(before[i].1);
                assert(result[j] == unique[j]);
            } else if k < 0 {
                assert(result[unique.len() as int] == team);
            } else {
                assert(result[k] == unique[k]);
            }
        }
    }
}

/// Successful deduplication means no name carries two seeds.
proof fn lemma_deduplicated_ok(teams: Seq<TeamView>)
    requires
        deduplicated(teams) is Ok,
    ensures
        !has_conflicting_seeds(teams),
    decreases teams.len(),
{
    if teams.len() > 0 {
        let before = teams.drop_last();
        lemma_deduplicated_ok(before);
        lemma_deduplicated_covers(before);
        lemma_deduplicated_distinct(before);
        let unique = deduplicated(before)->Ok_0;
        let team = teams.last();
        lemma_index_of_name(unique, team.0);
        let k = index_of_name(unique, team.0);
        assert forall|i: int, j: int|
            0 <= i < j < teams.len() && #[trigger] teams[i].0 == #[trigger] teams[j].0 implies seed_or_zero(
            teams[i].1,
        ) == seed_or_zero(teams[j].1) by {
            if j < before.len() {
                assert(teams[i] == before[i] && teams[j] == before[j]);
            } else {
                assert(teams[i] == before[i]);
                let m = choose|m: int|
                    0 <= m < unique.len() && #[trigger] unique[m].0 == #[trigger] before[i].0
                        && seed_or_zero(unique[m].1) == seed_or_zero(before[i].1);
                assert(m == k) by {
                    if m < k || k < 0 {
                        assert(unique[m].0 != team.0);
                    } else if m > k {
                        assert(unique[k].0 != unique[m].0);
                    }
                }
            }
        }
    }
}

/// Once a prefix conflicts, every longer prefix fails the same way.
proof fn lemma_deduplicated_err_kept(teams: Seq<TeamView>, k: int)
    requires
        0 <= k <= teams.len(),
        deduplicated(teams.take(k)) is Err,
    ensures
        deduplicated(teams) == deduplicated(teams.take(k)),
    decreases teams.len() - k,
{
    if k < teams.len() {
        assert(teams.take(k + 1).drop_last() =~= teams.take(k));
        lemma_deduplicated_err_kept(teams, k + 1);
    } else {
        assert(teams.take(k) =~= teams);
    }
}

/// A deduplication fails exactly when one name carries two different seeds.
proof fn lemma_deduplicated_err(teams: Seq<TeamView>)
    ensures
        deduplicated(teams) is Err <==> has_conflicting_seeds(teams),
    decreases teams.len(),
{
    if teams.len() > 0 {
        let before = teams.drop_last();
        lemma_deduplicated_err(before);
        if deduplicated(teams) is Ok {
            lemma_deduplicated_ok(teams);
        } else if deduplicated(before) is Err {
            let (i, j) = choose|i: int, j: int|
                0 <= i < j < before.len() && #[trigger] before[i].0 == #[trigger] before[j].0
                    && seed_or_zero(before[i].1) != seed_or_zero(before[j].1);
            assert(teams[i] == before[i] && teams[j] == before[j]);
        } else {
            let unique = deduplicated(before)->Ok_0;
            lemma_deduplicated_from_input(before);
            let team = teams.last();
            lemma_index_of_name(unique, team.0);
            let k = index_of_name(unique, team.0);
            assert(before.contains(unique[k]));
            let i = choose|i: int| 0 <= i < before.len() && before[i] == unique[k];
            assert(teams[i] == before[i]);
            assert(teams[teams.len() - 1] == team);
            assert(teams[i].0 == teams[teams.len() - 1].0);
        }
    }
}

/// Drops entries that repeat a team exactly and refuses a list where one name
/// carries two different seeds, since there is no telling which the
/// organiser meant. An absent seed counts as 0, so `None` and `Some(0)` are
/// the same team. The first occurrence is the one kept, and input order is
/// preserved.
pub fn deduplicate_teams(teams: Vec<Team>) -> (r: Result<Vec<Team>, AppError>)
    ensures
        r is Ok <==> deduplicated(teams@.map_values(|t: Team| t@)) is Ok,
        r is Ok <==> !has_conflicting_seeds(teams@.map_values(|t: Team| t@)),
        r matches Ok(unique) ==> deduplicated(teams@.map_values(|t: Team| t@))->Ok_0
            == unique@.map_values(|t: Team| t@),
        r matches Err(e) ==> (e matches AppError::ConflictingTeamSeeds(name, first, second) && (
        name@, first, second) == deduplicated(teams@.map_values(|t: Team| t@))->Err_0),
        // No two kept teams share a name.
        r matches Ok(unique) ==> forall|j: int, k: int|
            0 <= j < k < unique@.len() ==> #[trigger] unique@[j]@.0 != #[trigger] unique@[k]@.0,
        // Every entry's name is kept, with a seed that counts the same.
        r matches Ok(unique) ==> forall|i: int|
            #![trigger teams@[i]]
            0 <= i < teams@.len() ==> {
                let k = index_of_name(unique@.map_values(|t: Team| t@), teams@[i]@.0);
                &&& 0 <= k < unique@.len()
                &&& unique@[k]@.0 == teams@[i]@.0
                &&& seed_or_zero(unique@[k]@.1) == seed_or_zero(teams@[i]@.1)
            },
{
    let ghost views = teams@.map_values(|t: Team| t@);
    let mut unique: Vec<Team> = Vec::new();
    assert(views.take(0) =~= seq![]);
    assert(unique@.map_values(|t: Team| t@) =~= seq![]);
    let mut i: usize = 0;
    while i < teams.len()
        invariant
            i <= teams.len(),
            views == teams@.map_values(|t: Team| t@),
            deduplicated(views.take(i as int)) == Ok::<Seq<TeamView>, (Seq<char>, u32, u32)>(
                unique@.map_values(|t: Team| t@),
            ),
        decreases teams.len() - i,
    {
        let team = &teams[i];
        let ghost unique_views = unique@.map_values(|t: Team| t@);
        assert(views.take(i + 1).drop_last() =~= views.take(i as int));
        assert(views.take(i + 1).last() == team@);
        let mut j: usize = 0;
        let mut found = false;
        while !found && j < unique.len()
            invariant
                j <= unique.len(),
                unique_views == unique@.map_values(|t: Team| t@),
                unique_views.len() == unique@.len(),
                forall|m: int| 0 <= m < j ==> #[trigger] unique_views[m].0 != team@.0,
                found ==> j < unique.len() && unique_views[j as int].0 == team@.0,
            decreases unique.len() - j + (if found {
                0int
            } else {
                1int
            }),
        {
            assert(unique_views[j as int] == unique@[j as int]@);
            if same_text(unique[j].get_name(), team.get_name()) {
                found = true;
            } else {
                j = j + 1;
            }
        }
        proof {
            lemma_index_of_name(unique_views, team@.0);
        }
        if found {
            assert(index_of_name(unique_views, team@.0) == j);
            assert(unique_views[j as int] == unique@[j as int]@);
            let seed = unique[j].get_seed();
            if seed != team.get_seed() {
                assert(deduplicated(views.take(i + 1)) is Err);
                proof {
                    lemma_deduplicated_err_kept(views, i + 1);
                    lemma_deduplicated_err(views);
                }
                return Err(
                    AppError::ConflictingTeamSeeds(team.get_name().to_owned(), seed, team.get_seed()),
                );
            }
        } else {
            assert(index_of_name(unique_views, team@.0) == -1);
            unique.push(team.duplicate());
            assert(unique@.map_values(|t: Team| t@) =~= unique_views.push(team@));
        }
        i = i + 1;
    }
    assert(views.take(i as int) =~= views);
    proof {
        lemma_deduplicated_distinct(views);
        lemma_deduplicated_covers(views);
        lemma_deduplicated_err(views);
        let uv = unique@.map_values(|t: Team| t@);
        assert(deduplicated(views)->Ok_0 == uv);
        assert forall|j: int, k: int| 0 <= j < k < unique@.len() implies #[trigger] unique@[j]@.0
            != #[trigger] unique@[k]@.0 by {
            assert(uv[j] == unique@[j]@ && uv[k] == unique@[k]@);
        }
        assert forall|i: int| #![trigger teams@[i]] 0 <= i < teams@.len() implies {
            let k = index_of_name(uv, teams@[i]@.0);
            &&& 0 <= k < unique@.len()
            &&& unique@[k]@.0 == teams@[i]@.0
            &&& seed_or_zero(unique@[k]@.1) == seed_or_zero(teams@[i]@.1)
        } by {
            assert(views[i] == teams@[i]@);
            let j = choose|j: int|
                0 <= j < uv.len() && #[trigger] uv[j].0 == #[trigger] views[i].0 && seed_or_zero(
                    uv[j].1,
                ) == seed_or_zero(views[i].1);
            lemma_index_of_name(uv, views[i].0);
            let k = index_of_name(uv, views[i].0);
            assert(k == j) by {
                if k < 0 || j < k {
                    assert(uv[j].0 != views[i].0);
                } else if k < j {
                    assert(uv[k].0 != uv[j].0);
                }
            }
            assert(uv[j] == unique@[j]@);
        }
    }
    Ok(unique)
}

} // verus!
