use idlecore::errors::GameError;
use idlecore::parse::convert_resource_map;
use idlecore::qty::Qty;
use idlecore::resources::{Resource, ResourceMap};

#[test]
fn create_and_get() {
    let mut rm = ResourceMap::new();
    let ore = rm.create_resource("ore");
    let bar = rm.create_resource("bar");
    assert_eq!(ore, Resource(0));
    assert_eq!(bar, Resource(1));
    assert_eq!(rm.get_resource("ore"), Ok(Resource(0)));
    assert_eq!(rm.get_resource("bar"), Ok(Resource(1)));
    assert!(rm.has_resource_by_name("ore"));
    assert!(!rm.has_resource_by_name("coal"));
    assert!(rm.has_resource(Resource(0)));
    assert!(rm.has_resource(Resource(1)));
    assert!(!rm.has_resource(Resource(2)));
    assert_eq!(rm.name_of(Resource(1)), Ok("bar".to_string()));
    assert_eq!(rm.name_of(Resource(9)), Err(GameError::InvalidResourceReference));
}

#[test]
fn registry_bijection() {
    let mut rm = ResourceMap::new();
    let names = ["ore", "bar", "tool", "gem"];
    let mut handles = Vec::new();
    for n in names.iter() {
        handles.push(rm.create_resource(n));
    }
    for (i, n) in names.iter().enumerate() {
        let h = handles[i];
        let back = rm.name_of(h).unwrap();
        assert_eq!(back, n.to_string());
        assert_eq!(rm.get_resource(&back), Ok(h));
        assert_eq!(rm.name_of(rm.get_resource(n).unwrap()).unwrap(), n.to_string());
    }
}

#[test]
fn duplicate_names_last_wins() {
    let mut rm = ResourceMap::new();
    let first = rm.create_resource("ore");
    let second = rm.create_resource("ore");
    assert_eq!(first, Resource(0));
    assert_eq!(second, Resource(1));
    // A lookup returns the handle assigned last; the earlier handle keeps
    // its slot and name.
    assert_eq!(rm.get_resource("ore"), Ok(Resource(1)));
    assert_eq!(rm.name_of(Resource(0)), Ok("ore".to_string()));
}

#[test]
fn unknown_name_fails() {
    let rm = ResourceMap::new();
    assert_eq!(rm.get_resource("ore"), Err(GameError::UnknownResourceName));
    assert!(!rm.has_resource_by_name("ore"));
}

#[test]
fn handle_zero_is_valid() {
    // The bounds guard includes handle 0 as soon as one resource exists.
    let mut rm = ResourceMap::new();
    assert!(!rm.has_resource(Resource(0)));
    rm.create_resource("ore");
    assert!(rm.has_resource(Resource(0)));
}

#[test]
fn convert_known_names() {
    let mut rm = ResourceMap::new();
    rm.create_resource("ore");
    rm.create_resource("bar");
    let entries = vec![
        ("bar".to_string(), Qty::new(2, 1)),
        ("ore".to_string(), Qty::new(1, 2)),
    ];
    let converted = convert_resource_map(&entries, &rm).unwrap();
    assert_eq!(converted.len(), 2);
    assert_eq!(converted[0], (Resource(1), Qty::new(2, 1)));
    assert_eq!(converted[1], (Resource(0), Qty::new(1, 2)));
}

#[test]
fn convert_unknown_name_fails() {
    let mut rm = ResourceMap::new();
    rm.create_resource("ore");
    let entries = vec![("coal".to_string(), Qty::new(1, 1))];
    assert_eq!(convert_resource_map(&entries, &rm), Err(GameError::UnknownResourceName));
}
