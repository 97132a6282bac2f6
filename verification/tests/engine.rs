use idlecore::errors::GameError;
use idlecore::game::Game;
use idlecore::qty::Qty;
use idlecore::recipe::Recipe;
use idlecore::resources::{Resource, ResourceMap};

fn registry(names: &[&str]) -> ResourceMap {
    let mut rm = ResourceMap::new();
    for n in names.iter() {
        rm.create_resource(n);
    }
    rm
}

fn recipe(
    ingredients: Vec<(Resource, Qty)>,
    outputs: Vec<(Resource, Qty)>,
    requirements: Vec<(Resource, Qty)>,
    ticks: u64,
) -> Recipe {
    Recipe { ingredients, outputs, requirements, ticks }
}

#[test]
fn validation_gate() {
    // A recipe referencing a handle outside [0, resource_count) is rejected;
    // one whose handles are all valid is accepted under a fresh key.
    let mut game = Game::new(registry(&["ore"]));
    let bad = recipe(vec![(Resource(5), Qty::new(1, 1))], vec![], vec![], 1);
    assert_eq!(game.add_recipe("bad", bad), Err(GameError::InvalidResourceReference));
    let good = recipe(vec![], vec![(Resource(0), Qty::new(1, 1))], vec![], 1);
    assert_eq!(game.add_recipe("good", good), Ok(()));
}

#[test]
fn duplicate_key_rejected() {
    let mut game = Game::new(registry(&["ore"]));
    let first = recipe(vec![], vec![(Resource(0), Qty::new(1, 1))], vec![], 1);
    let second = recipe(vec![], vec![(Resource(0), Qty::new(7, 1))], vec![], 4);
    assert_eq!(game.add_recipe("make", first), Ok(()));
    assert_eq!(game.add_recipe("make", second), Err(GameError::DuplicateRecipeKey));
    // The first definition is untouched.
    assert_eq!(game.recipes.len(), 1);
    assert_eq!(game.recipes[0].1.outputs[0].1, Qty::new(1, 1));
    assert_eq!(game.recipes[0].1.ticks, 1);
}

#[test]
fn step_unknown_recipe() {
    let mut game = Game::new(registry(&["ore"]));
    assert_eq!(game.tick("nope"), Err(GameError::RecipeNotFound));
    assert_eq!(game.time, 0);
}

#[test]
fn atomicity_under_failure() {
    // A failed step leaves inventory and tick counter bit-for-bit unchanged.
    let mut game = Game::new(registry(&["ore", "bar", "tool"]));
    let needy = recipe(
        vec![(Resource(0), Qty::new(1, 1))],
        vec![(Resource(1), Qty::new(1, 1))],
        vec![(Resource(2), Qty::new(1, 1))],
        2,
    );
    game.add_recipe("needy", needy).unwrap();
    game.inventory.set(Resource(0), Qty::new(1, 3));
    let before: Vec<Qty> = game.inventory.resources.clone();
    let time_before = game.time;

    // Prerequisite unmet.
    assert_eq!(game.tick("needy"), Err(GameError::MissingPrerequisites));
    assert_eq!(game.inventory.resources, before);
    assert_eq!(game.time, time_before);

    // Prerequisite met, ingredient share (1/2) unmet by 1/3.
    game.inventory.set(Resource(2), Qty::new(1, 1));
    let before2: Vec<Qty> = game.inventory.resources.clone();
    assert_eq!(game.tick("needy"), Err(GameError::MissingIngredients));
    assert_eq!(game.inventory.resources, before2);
    assert_eq!(game.time, time_before);

    // Unknown key.
    assert_eq!(game.tick("ghost"), Err(GameError::RecipeNotFound));
    assert_eq!(game.inventory.resources, before2);
    assert_eq!(game.time, time_before);
}

#[test]
fn fractional_accumulation() {
    // ticks = 4, one output of amount 1: after k steps the slot holds k/4,
    // and after all 4 steps it has risen by exactly 1.
    let mut game = Game::new(registry(&["bar"]));
    let make = recipe(vec![], vec![(Resource(0), Qty::new(1, 1))], vec![], 4);
    game.add_recipe("make", make).unwrap();
    for k in 1..=4u64 {
        assert_eq!(game.tick("make"), Ok(()));
        let have = game.inventory.get(Resource(0));
        assert!(have.eq_val(Qty::new(k, 4)));
        assert_eq!(game.time, k as i64);
    }
    assert!(game.inventory.get(Resource(0)).eq_val(Qty::new(1, 1)));
}

#[test]
fn end_to_end_smelt() {
    // Resources {ore, bar}; smelt: ingredients {ore: 1}, outputs {bar: 1},
    // ticks 2. With no ore the step fails (needs ore >= 1/2); with ore = 1
    // two steps run it to completion.
    let rm = registry(&["ore", "bar"]);
    let ore = Resource(0);
    let bar = Resource(1);
    let mut game = Game::new(rm);
    let smelt = recipe(
        vec![(ore, Qty::new(1, 1))],
        vec![(bar, Qty::new(1, 1))],
        vec![],
        2,
    );
    game.add_recipe("smelt", smelt).unwrap();

    assert_eq!(game.tick("smelt"), Err(GameError::MissingIngredients));
    assert_eq!(game.time, 0);

    game.inventory.set(ore, Qty::new(1, 1));
    assert_eq!(game.tick("smelt"), Ok(()));
    assert!(game.inventory.get(ore).eq_val(Qty::new(1, 2)));
    assert!(game.inventory.get(bar).eq_val(Qty::new(1, 2)));
    assert_eq!(game.time, 1);

    assert_eq!(game.tick("smelt"), Ok(()));
    assert!(game.inventory.get(ore).eq_val(Qty::new(0, 1)));
    assert!(game.inventory.get(bar).eq_val(Qty::new(1, 1)));
    assert_eq!(game.time, 2);
}

#[test]
fn requires_is_non_consuming() {
    // A standing requirement gates the step but is never consumed: the
    // tool's slot is bit-for-bit unchanged after any number of steps.
    let mut game = Game::new(registry(&["tool", "bar"]));
    let tool = Resource(0);
    let bar = Resource(1);
    let craft = recipe(
        vec![],
        vec![(bar, Qty::new(1, 1))],
        vec![(tool, Qty::new(1, 1))],
        2,
    );
    game.add_recipe("craft", craft).unwrap();
    game.inventory.set(tool, Qty::new(1, 1));
    for _ in 0..5 {
        assert_eq!(game.tick("craft"), Ok(()));
        assert_eq!(game.inventory.get(tool), Qty::new(1, 1));
    }
}

#[test]
fn overflowing_share_is_rejected_atomically() {
    // An amount whose per-step share cannot be represented fails the step
    // and leaves the engine untouched.
    let mut game = Game::new(registry(&["bar"]));
    let huge = recipe(vec![], vec![(Resource(0), Qty::new(1, u64::MAX))], vec![], 2);
    game.add_recipe("huge", huge).unwrap();
    let before: Vec<Qty> = game.inventory.resources.clone();
    assert_eq!(game.tick("huge"), Err(GameError::QuantityOverflow));
    assert_eq!(game.inventory.resources, before);
    assert_eq!(game.time, 0);
}

#[test]
fn stepping_runs_indefinitely() {
    // Reduced arithmetic keeps denominators bounded, so an ordinary recipe
    // can be stepped indefinitely: 200 consecutive mining steps all succeed
    // and yield exactly 100 units.
    let mut game = Game::new(registry(&["ore"]));
    let mine = recipe(vec![], vec![(Resource(0), Qty::new(1, 1))], vec![], 2);
    game.add_recipe("mine", mine).unwrap();
    for _ in 0..200 {
        assert_eq!(game.tick("mine"), Ok(()));
        // The slot's denominator never grows past the per-step share's.
        assert!(game.inventory.get(Resource(0)).den <= 2);
    }
    assert!(game.inventory.get(Resource(0)).eq_val(Qty::new(100, 1)));
    assert_eq!(game.time, 200);
}

#[test]
fn stepping_runs_at_config_scale() {
    // Amounts as a configuration loader hands them over — scaled to a
    // billionth of a unit — also step indefinitely: a 60-tick conversion
    // driven for 600 steps never overflows and consumes exactly 10 units.
    let scale = 1_000_000_000u64;
    let mut game = Game::new(registry(&["ore", "bar"]));
    let smelt = recipe(
        vec![(Resource(0), Qty::new(scale, scale))],
        vec![(Resource(1), Qty::new(scale, scale))],
        vec![],
        60,
    );
    game.add_recipe("smelt", smelt).unwrap();
    game.inventory.set(Resource(0), Qty::new(10, 1));
    for _ in 0..600 {
        assert_eq!(game.tick("smelt"), Ok(()));
    }
    assert!(game.inventory.get(Resource(0)).eq_val(Qty::new(0, 1)));
    assert!(game.inventory.get(Resource(1)).eq_val(Qty::new(10, 1)));
    assert_eq!(game.time, 600);
}

#[test]
fn error_messages_are_distinct() {
    let errors = [
        GameError::DuplicateRecipeKey,
        GameError::InvalidResourceReference,
        GameError::RecipeNotFound,
        GameError::MissingPrerequisites,
        GameError::MissingIngredients,
        GameError::UnknownResourceName,
        GameError::QuantityOverflow,
    ];
    for (i, a) in errors.iter().enumerate() {
        assert!(!a.message().is_empty());
        for b in errors.iter().skip(i + 1) {
            assert_ne!(a.message(), b.message());
        }
    }
}
