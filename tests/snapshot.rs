use drm_monitor::key::ConnectorKey;
use drm_monitor::snapshot::{controller_snapshot, snapshot_all, ControllerReading, DeviceQueryError};
use drm_monitor::state::ConnectorState::{Connected, Disconnected, Unknown};

#[test]
fn controller_readings_are_keyed() {
    let r = controller_snapshot("/dev/dri/card0", &vec![(31, Connected), (40, Unknown)]);
    assert_eq!(
        r,
        vec![
            (ConnectorKey::new("/dev/dri/card0", 31), Connected),
            (ConnectorKey::new("/dev/dri/card0", 40), Unknown),
        ]
    );
    assert!(controller_snapshot("/dev/dri/card0", &Vec::new()).is_empty());
}

#[test]
fn failed_controller_is_skipped() {
    let readings = vec![
        ControllerReading { path: "/dev/dri/card0".to_string(), connectors: Ok(vec![(1, Connected)]) },
        ControllerReading { path: "/dev/dri/card1".to_string(), connectors: Err(DeviceQueryError { code: 19 }) },
        ControllerReading { path: "/dev/dri/card2".to_string(), connectors: Ok(vec![(1, Disconnected), (2, Connected)]) },
    ];
    assert_eq!(
        snapshot_all(&readings),
        vec![
            (ConnectorKey::new("/dev/dri/card0", 1), Connected),
            (ConnectorKey::new("/dev/dri/card2", 1), Disconnected),
            (ConnectorKey::new("/dev/dri/card2", 2), Connected),
        ]
    );
}

#[test]
fn no_controllers_no_readings() {
    assert!(snapshot_all(&Vec::new()).is_empty());
}

#[test]
fn same_connector_id_on_two_controllers_stays_apart() {
    let readings = vec![
        ControllerReading { path: "/dev/dri/card0".to_string(), connectors: Ok(vec![(1, Connected)]) },
        ControllerReading { path: "/dev/dri/card1".to_string(), connectors: Ok(vec![(1, Disconnected)]) },
    ];
    let s = snapshot_all(&readings);
    assert_ne!(s[0].0, s[1].0);
    let mut d = drm_monitor::detector::ChangeDetector::new();
    d.diff(s.clone());
    assert_eq!(d.baseline_state(s[0].0), Some(Connected));
    assert_eq!(d.baseline_state(s[1].0), Some(Disconnected));
}
