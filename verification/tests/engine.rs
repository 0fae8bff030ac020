//! End-to-end propagation scenarios: the consistency verdict of whole
//! constraint stores, and the representative `X > Y + Z` propagator.

use pcp::domain::Dom;
use pcp::event::FdEvent;
use pcp::props::Distinct;
use pcp::props::Prop;
use pcp::props::XEqY;
use pcp::props::XGreaterYPlusZ;
use pcp::props::XLessY;
use pcp::props::XNeqY;
use pcp::store::Store;
use pcp::term::FdView;
use pcp::trilean::Trilean;
use pcp::vstore::VStore;

#[test]
fn basic_test() {
    let variables: &mut VStore = &mut VStore::empty();
    let mut constraints: Store = Store::empty();

    assert_eq!(constraints.consistency(variables), Trilean::True);

    let var1 = variables.allocate(Dom::new(1, 4));
    let var2 = variables.allocate(Dom::new(1, 4));
    let var3 = variables.allocate(Dom::new(1, 1));

    assert_eq!(constraints.consistency(variables), Trilean::True);

    constraints.allocate(Prop::Less(XLessY::new(
        FdView::identity(var1),
        FdView::identity(var2),
    )));
    assert_eq!(constraints.consistency(variables), Trilean::Unknown);

    constraints.allocate(Prop::Equal(XEqY::new(
        FdView::identity(var1),
        FdView::identity(var3),
    )));
    assert_eq!(constraints.consistency(variables), Trilean::True);
}

fn chained_lt(n: usize, expect: Trilean) {
    // X1 < X2 < X3 < ... < XN, all in dom [1, 10]
    let variables: &mut VStore = &mut VStore::empty();
    let mut constraints: Store = Store::empty();
    let mut vars = vec![];
    for _ in 0..n {
        vars.push(variables.allocate(Dom::new(1, 10)));
    }
    for i in 0..n - 1 {
        constraints.allocate(Prop::Less(XLessY::new(
            FdView::identity(vars[i]),
            FdView::identity(vars[i + 1]),
        )));
    }
    assert_eq!(constraints.consistency(variables), expect);
}

#[test]
fn chained_lt_tests() {
    chained_lt(1, Trilean::True);
    chained_lt(2, Trilean::Unknown);
    chained_lt(5, Trilean::Unknown);
    chained_lt(9, Trilean::Unknown);
    chained_lt(10, Trilean::True);
    chained_lt(11, Trilean::False);
}

#[test]
fn example_nqueens() {
    nqueens(1, Trilean::True);
    nqueens(2, Trilean::Unknown);
    nqueens(3, Trilean::Unknown);
    nqueens(4, Trilean::Unknown);
}

fn nqueens(n: usize, expect: Trilean) {
    let variables: &mut VStore = &mut VStore::empty();
    let mut constraints: Store = Store::empty();
    let mut queens = vec![];
    // 2 queens can't share the same line.
    for _ in 0..n {
        queens.push(variables.allocate(Dom::new(1, n as i64)));
    }
    for i in 0..n - 1 {
        for j in i + 1..n {
            // 2 queens can't share the same diagonal.
            let q1 = (i + 1) as i32;
            let q2 = (j + 1) as i32;
            // Xi + i != Xj + j
            constraints.allocate(Prop::NotEqual(XNeqY::new(
                FdView::addition(queens[i], q1),
                FdView::addition(queens[j], q2),
            )));
            // Xi - i != Xj - j
            constraints.allocate(Prop::NotEqual(XNeqY::new(
                FdView::identity(queens[i]),
                FdView::addition(queens[j], -q2 + q1),
            )));
        }
    }
    // 2 queens can't share the same column.
    let views: Vec<FdView> = queens.iter().map(|q| FdView::identity(*q)).collect();
    constraints.allocate(Prop::AllDifferent(Distinct::new(views)));
    assert_eq!(constraints.consistency(variables), expect);
}

fn sorted_deltas(deltas: Vec<(usize, FdEvent)>) -> Vec<(usize, usize)> {
    let mut out: Vec<(usize, usize)> = deltas.into_iter().map(|(v, e)| (v, e.index())).collect();
    out.sort();
    out
}

fn x_greater_y_plus_z_test_one(
    test_num: u32,
    x: (i64, i64),
    y: (i64, i64),
    z: (i64, i64),
    before: Trilean,
    after: Trilean,
    delta_expected: Vec<(usize, FdEvent)>,
    propagate_success: bool,
) {
    let mut store = VStore::empty();
    let vx = store.allocate(Dom::new(x.0, x.1));
    let vy = store.allocate(Dom::new(y.0, y.1));
    let vz = store.allocate(Dom::new(z.0, z.1));
    let prop = XGreaterYPlusZ::new(
        FdView::identity(vx),
        FdView::identity(vy),
        FdView::identity(vz),
    );
    assert_eq!(prop.is_subsumed(&store), before, "test {}: before", test_num);
    let ok = prop.propagate(&mut store);
    assert_eq!(ok, propagate_success, "test {}: propagate", test_num);
    if ok {
        assert_eq!(prop.is_subsumed(&store), after, "test {}: after", test_num);
        assert_eq!(
            sorted_deltas(store.drain_delta()),
            sorted_deltas(delta_expected),
            "test {}: deltas",
            test_num
        );
    }
}

#[test]
fn x_greater_y_plus_z_test() {
    let dom0_10 = (0, 10);
    let dom10_20 = (10, 20);
    let dom10_11 = (10, 11);
    let dom5_15 = (5, 15);
    let dom1_10 = (1, 10);
    let dom5_10 = (5, 10);
    let dom6_10 = (6, 10);
    let dom1_1 = (1, 1);
    let dom2_2 = (2, 2);

    x_greater_y_plus_z_test_one(
        1,
        dom0_10,
        dom0_10,
        dom0_10,
        Trilean::Unknown,
        Trilean::Unknown,
        vec![
            (0, FdEvent::Bound),
            (1, FdEvent::Bound),
            (2, FdEvent::Bound),
        ],
        true,
    );
    x_greater_y_plus_z_test_one(
        2,
        dom10_11,
        dom5_15,
        dom5_15,
        Trilean::Unknown,
        Trilean::True,
        vec![
            (0, FdEvent::Assignment),
            (1, FdEvent::Assignment),
            (2, FdEvent::Assignment),
        ],
        true,
    );
    x_greater_y_plus_z_test_one(
        3,
        dom10_20,
        dom1_1,
        dom1_1,
        Trilean::True,
        Trilean::True,
        vec![],
        true,
    );
    x_greater_y_plus_z_test_one(
        4,
        dom1_1,
        dom1_1,
        dom1_1,
        Trilean::False,
        Trilean::False,
        vec![],
        false,
    );
    x_greater_y_plus_z_test_one(
        5,
        dom2_2,
        dom1_1,
        dom1_1,
        Trilean::False,
        Trilean::False,
        vec![],
        false,
    );
    x_greater_y_plus_z_test_one(
        6,
        dom6_10,
        dom5_10,
        dom1_10,
        Trilean::Unknown,
        Trilean::Unknown,
        vec![
            (0, FdEvent::Bound),
            (1, FdEvent::Bound),
            (2, FdEvent::Bound),
        ],
        true,
    );
}

#[test]
fn simple_lt_pins_domains() {
    // After X < Y and X = Z with X,Y in [1,4] and Z = 1, propagation pins
    // X to [1,1] and narrows Y to [2,4].
    let variables: &mut VStore = &mut VStore::empty();
    let mut constraints: Store = Store::empty();
    let x = variables.allocate(Dom::new(1, 4));
    let y = variables.allocate(Dom::new(1, 4));
    let z = variables.allocate(Dom::new(1, 1));
    constraints.allocate(Prop::Less(XLessY::new(
        FdView::identity(x),
        FdView::identity(y),
    )));
    constraints.allocate(Prop::Equal(XEqY::new(
        FdView::identity(x),
        FdView::identity(z),
    )));
    assert_eq!(constraints.consistency(variables), Trilean::True);
    assert_eq!(variables.read(x), Dom::new(1, 1));
    assert_eq!(variables.read(y), Dom::new(2, 4));
    assert_eq!(variables.read(z), Dom::new(1, 1));
}

#[test]
fn chained_lt_width_exact_pins_all() {
    // Ten variables in [1,10] chained by strict inequalities leave exactly
    // one value per variable: the i-th is pinned to i.
    let variables: &mut VStore = &mut VStore::empty();
    let mut constraints: Store = Store::empty();
    let mut vars = vec![];
    for _ in 0..10 {
        vars.push(variables.allocate(Dom::new(1, 10)));
    }
    for i in 0..9 {
        constraints.allocate(Prop::Less(XLessY::new(
            FdView::identity(vars[i]),
            FdView::identity(vars[i + 1]),
        )));
    }
    assert_eq!(constraints.consistency(variables), Trilean::True);
    for (i, v) in vars.iter().enumerate() {
        let expected = (i + 1) as i64;
        assert_eq!(variables.read(*v), Dom::new(expected, expected));
    }
}

#[test]
fn x_greater_y_plus_z_filtering_values() {
    // X in [6,10], Y in [5,10], Z in [1,10]: one filtering pass leaves
    // X = [7,10], Y = [5,8], Z = [1,4], still undetermined.
    let mut store = VStore::empty();
    let x = store.allocate(Dom::new(6, 10));
    let y = store.allocate(Dom::new(5, 10));
    let z = store.allocate(Dom::new(1, 10));
    let prop = XGreaterYPlusZ::new(
        FdView::identity(x),
        FdView::identity(y),
        FdView::identity(z),
    );
    assert!(prop.propagate(&mut store));
    assert_eq!(store.read(x), Dom::new(7, 10));
    assert_eq!(store.read(y), Dom::new(5, 8));
    assert_eq!(store.read(z), Dom::new(1, 4));
    assert_eq!(prop.is_subsumed(&store), Trilean::Unknown);
}
