use puzrs::grid::Grid;
use puzrs::tapa::generator::{
    clue_candidates, clue_count_after, clues_filled, energy, exceeds_max_clue, forced_clues,
    mark_clues, near_own_mirror, no_clue_around, undecided_near, update_target, ClueConstraint,
    GeneratorOption, UpdateTarget,
};
use puzrs::tapa::NO_CLUE;

#[test]
fn forced_cells_are_marked_and_counted() {
    let mut c = Grid::new(3, 4, ClueConstraint::Any);
    c.set(0, 1, ClueConstraint::Forced);
    c.set(2, 3, ClueConstraint::Forced);
    c.set(1, 1, ClueConstraint::Prohibited);
    let (has, n) = forced_clues(&c);
    assert_eq!(n, 2);
    assert!(has.get(0, 1));
    assert!(has.get(2, 3));
    assert!(!has.get(1, 1));
    assert!(!has.get(0, 0));
    let opts = GeneratorOption { clue_constraint: c, max_clue: Some(10), use_trial_and_error: true };
    assert_eq!(opts.clue_constraint.height(), 3);
}

#[test]
fn mirror_neighbourhood() {
    assert!(!near_own_mirror(5, 5, 2, 2));
    assert!(near_own_mirror(5, 5, 2, 1) == false);
    assert!(near_own_mirror(4, 4, 1, 1));
    assert!(near_own_mirror(4, 4, 1, 2));
    assert!(!near_own_mirror(4, 4, 0, 1));
    assert!(near_own_mirror(5, 4, 2, 1));
}

#[test]
fn clues_around_and_undecided_near() {
    let mut has = Grid::new(5, 5, false);
    has.set(0, 0, true);
    assert!(!no_clue_around(&has, 1, 1));
    assert!(no_clue_around(&has, 0, 0));
    assert!(no_clue_around(&has, 2, 2));
    let mut und = Grid::new(5, 5, false);
    assert!(!undecided_near(&und, 2, 2));
    und.set(4, 4, true);
    assert!(undecided_near(&und, 2, 2));
    assert!(!undecided_near(&und, 1, 1));
}

#[test]
fn update_targets() {
    let c = Grid::new(5, 5, ClueConstraint::Any);
    let black = Grid::new(5, 5, false);
    let mut und = Grid::new(5, 5, false);
    let mut has = Grid::new(5, 5, false);
    let mut problem = Grid::new(5, 5, NO_CLUE);
    // No undecided cell anywhere: nothing to gain.
    assert_eq!(update_target(&c, &black, &und, &has, &problem, 0, 0), UpdateTarget::Skip);
    und.set(1, 1, true);
    assert_eq!(update_target(&c, &black, &und, &has, &problem, 0, 0), UpdateTarget::AfterDraw);
    problem.set(0, 0, 3);
    assert_eq!(update_target(&c, &black, &und, &has, &problem, 0, 0), UpdateTarget::Candidate);
    // A marked cell without a clue is always a candidate.
    has.set(4, 4, true);
    assert_eq!(update_target(&c, &black, &und, &has, &problem, 4, 4), UpdateTarget::Candidate);
    // Its neighbour sees a marked cell around it.
    assert_eq!(update_target(&c, &black, &und, &has, &problem, 3, 3), UpdateTarget::Skip);
    // In a grid of odd sides no cell but the centre is next to its reflection.
    assert_eq!(update_target(&c, &black, &und, &has, &problem, 2, 1), UpdateTarget::AfterDraw);
    // In a grid of even sides the four central cells are skipped.
    let c4 = Grid::new(4, 4, ClueConstraint::Any);
    let b4 = Grid::new(4, 4, false);
    let u4 = Grid::new(4, 4, true);
    let h4 = Grid::new(4, 4, false);
    let p4 = Grid::new(4, 4, NO_CLUE);
    assert_eq!(update_target(&c4, &b4, &u4, &h4, &p4, 1, 2), UpdateTarget::Skip);
    assert_eq!(update_target(&c4, &b4, &u4, &h4, &p4, 0, 2), UpdateTarget::AfterDraw);
    let mut black2 = Grid::new(5, 5, false);
    black2.set(0, 0, true);
    assert_eq!(update_target(&c, &black2, &und, &has, &problem, 0, 0), UpdateTarget::Skip);
}

#[test]
fn candidate_clues() {
    let all: Vec<i32> = (1..21).collect();
    assert_eq!(clue_candidates(ClueConstraint::Any, NO_CLUE, 23), all);
    let mut forced: Vec<i32> = (1..21).collect();
    forced.retain(|&v| v != 5);
    assert_eq!(clue_candidates(ClueConstraint::Forced, 5, 23), forced);
    let mut any: Vec<i32> = vec![-1];
    any.extend((1..21).filter(|&v| v != 3));
    assert_eq!(clue_candidates(ClueConstraint::Any, 3, 23), any);
    assert_eq!(clue_candidates(ClueConstraint::Any, 2, 3), vec![-1, 1]);
    assert_eq!(clue_candidates(ClueConstraint::Any, 2, -5), vec![]);
}

#[test]
fn clue_counts() {
    let mut problem = Grid::new(3, 3, NO_CLUE);
    let mut has = Grid::new(3, 3, false);
    // Adding a clue off the centre marks it and its reflection.
    assert_eq!(clue_count_after(&problem, &has, 0, 0, 0, 4), 2);
    // Adding at the centre counts once.
    assert_eq!(clue_count_after(&problem, &has, 0, 1, 1, 4), 1);
    problem.set(0, 0, 4);
    has.set(0, 0, true);
    has.set(2, 2, true);
    // Removing a clue whose reflection has none removes two.
    assert_eq!(clue_count_after(&problem, &has, 2, 0, 0, NO_CLUE), 0);
    problem.set(2, 2, 7);
    assert_eq!(clue_count_after(&problem, &has, 2, 0, 0, NO_CLUE), 2);
    assert_eq!(clue_count_after(&problem, &has, 1, 1, 1, NO_CLUE), 0);
    // Changing a marked clue counts nothing new.
    assert_eq!(clue_count_after(&problem, &has, 2, 0, 0, 9), 2);
    assert!(exceeds_max_clue(Some(3), 4));
    assert!(!exceeds_max_clue(Some(4), 4));
    assert!(!exceeds_max_clue(None, 1000));
    assert_eq!(energy(30, 5), 10);
    assert_eq!(energy(3, 5), -17);
}

#[test]
fn marks_follow_changes() {
    let mut problem = Grid::new(3, 3, NO_CLUE);
    let mut has = Grid::new(3, 3, false);
    problem.set(0, 1, 5);
    mark_clues(&mut has, &problem, 0, 1, 5);
    assert!(has.get(0, 1) && has.get(2, 1));
    assert!(!clues_filled(&has, &problem));
    problem.set(2, 1, 6);
    assert!(clues_filled(&has, &problem));
    // Removing one clue while its reflection keeps one leaves the marks.
    problem.set(0, 1, NO_CLUE);
    mark_clues(&mut has, &problem, 0, 1, NO_CLUE);
    assert!(has.get(0, 1) && has.get(2, 1));
    // Once both are gone the marks go.
    problem.set(2, 1, NO_CLUE);
    mark_clues(&mut has, &problem, 2, 1, NO_CLUE);
    assert!(!has.get(0, 1) && !has.get(2, 1));
    assert!(clues_filled(&has, &problem));
}

fn count_marks(g: &Grid<bool>) -> i32 {
    let mut n = 0;
    for y in 0..g.height() {
        for x in 0..g.width() {
            if g.get(y, x) {
                n += 1;
            }
        }
    }
    n
}

fn accept(
    problem: &mut Grid<i32>,
    has: &mut Grid<bool>,
    n: i32,
    y: i32,
    x: i32,
    clue: i32,
) -> i32 {
    let n2 = clue_count_after(problem, has, n, y, x, clue);
    problem.set(y, x, clue);
    mark_clues(has, problem, y, x, clue);
    n2
}

#[test]
fn accepted_changes_keep_count_marks_and_symmetry() {
    let mut c = Grid::new(3, 3, ClueConstraint::Any);
    c.set(1, 1, ClueConstraint::Forced);
    let (mut has, mut n) = forced_clues(&c);
    assert_eq!(n, count_marks(&has));
    let mut problem = Grid::new(3, 3, NO_CLUE);
    // A clue in a corner marks the opposite corner too.
    n = accept(&mut problem, &mut has, n, 0, 0, 3);
    assert_eq!(n, 3);
    assert_eq!(n, count_marks(&has));
    assert!(has.get(2, 2));
    // The reflection gets its own clue: nothing new to mark.
    n = accept(&mut problem, &mut has, n, 2, 2, 5);
    assert_eq!(n, 3);
    assert_eq!(n, count_marks(&has));
    // Removing one of the two keeps both marks while the other holds a clue.
    n = accept(&mut problem, &mut has, n, 0, 0, NO_CLUE);
    assert_eq!(n, 3);
    assert_eq!(n, count_marks(&has));
    assert!(has.get(0, 0) && has.get(2, 2));
    // Removing the other as well unmarks both.
    n = accept(&mut problem, &mut has, n, 2, 2, NO_CLUE);
    assert_eq!(n, 1);
    assert_eq!(n, count_marks(&has));
    assert!(!has.get(0, 0) && !has.get(2, 2));
    for y in 0..3 {
        for x in 0..3 {
            assert_eq!(has.get(y, x), has.get(2 - y, 2 - x));
        }
    }
}
