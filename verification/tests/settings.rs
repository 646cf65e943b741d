use adashi::settings::{
    resolve_project_from_settings, restored_window_settings, window_monitor_intersection_area,
    AppSettings, MonitorArea, ProjectSettings, WindowSettings,
};

#[test]
fn resolve_project_without_project_input_returns_explicit_error() {
    let settings = AppSettings {
        window: WindowSettings::default(),
        projects: Vec::new(),
        last_active_project_id: None,
        rule_templates: Vec::new(),
    };

    let error = resolve_project_from_settings(&settings, None).unwrap_err();

    assert_eq!(
        error,
        "projectId is required and must be a configured project id or project name"
    );
}

#[test]
fn resolve_project_with_blank_project_input_returns_explicit_error() {
    let settings = AppSettings {
        window: WindowSettings::default(),
        projects: vec![ProjectSettings {
            id: "adashi".to_string(),
            name: "Adashi".to_string(),
            folder: "C:\\src\\Adashi".to_string(),
        }],
        last_active_project_id: Some("adashi".to_string()),
        rule_templates: Vec::new(),
    };

    let error = resolve_project_from_settings(&settings, Some("   ")).unwrap_err();

    assert_eq!(
        error,
        "projectId is required and must be a configured project id or project name"
    );
}

#[test]
fn resolve_project_with_unknown_project_input_returns_clean_error() {
    let settings = AppSettings {
        window: WindowSettings::default(),
        projects: vec![ProjectSettings {
            id: "adashi".to_string(),
            name: "Adashi".to_string(),
            folder: "C:\\src\\Adashi".to_string(),
        }],
        last_active_project_id: Some("adashi".to_string()),
        rule_templates: Vec::new(),
    };

    let error = resolve_project_from_settings(&settings, Some("raysplatter")).unwrap_err();

    assert_eq!(error, "Unknown project id or name: raysplatter");
}

#[test]
fn resolve_project_matches_id_or_case_insensitive_name() {
    let settings = AppSettings {
        window: WindowSettings::default(),
        projects: vec![
            ProjectSettings {
                id: "adashi".to_string(),
                name: "Adashi".to_string(),
                folder: "C:\\src\\Adashi".to_string(),
            },
            ProjectSettings {
                id: "raysplatter-12345".to_string(),
                name: "RaySplatter".to_string(),
                folder: "C:\\Unreal\\RaySplatter".to_string(),
            },
        ],
        last_active_project_id: Some("adashi".to_string()),
        rule_templates: Vec::new(),
    };

    let by_id = resolve_project_from_settings(&settings, Some("raysplatter-12345")).unwrap();
    let by_name = resolve_project_from_settings(&settings, Some("raysplatter")).unwrap();

    assert_eq!(by_id.name, "RaySplatter");
    assert_eq!(by_name.id, "raysplatter-12345");
}

#[test]
fn a_reference_is_trimmed_before_it_is_matched() {
    let settings = AppSettings {
        window: WindowSettings::default(),
        projects: vec![ProjectSettings {
            id: "adashi".to_string(),
            name: "Adashi".to_string(),
            folder: "C:\\src\\Adashi".to_string(),
        }],
        last_active_project_id: None,
        rule_templates: Vec::new(),
    };
    let found = resolve_project_from_settings(&settings, Some("  ADASHI \t")).unwrap();
    assert_eq!(found.id, "adashi");
    let error = resolve_project_from_settings(&settings, Some(" other ")).unwrap_err();
    assert_eq!(error, "Unknown project id or name: other");
}

#[test]
fn overlap_below_eighty_pixels_counts_as_none() {
    let monitor = MonitorArea { x: 0, y: 0, width: 1920, height: 1080 };
    let inside = WindowSettings { width: 800, height: 600, x: Some(100), y: Some(100) };
    assert_eq!(window_monitor_intersection_area(&inside, &monitor), 800 * 600);
    let sliver = WindowSettings { width: 800, height: 600, x: Some(1850), y: Some(100) };
    assert_eq!(window_monitor_intersection_area(&sliver, &monitor), 0);
    let unplaced = WindowSettings { width: 800, height: 600, x: None, y: None };
    assert_eq!(window_monitor_intersection_area(&unplaced, &monitor), 0);
}

#[test]
fn a_restored_window_is_clamped_onto_its_best_monitor() {
    let monitors = [
        MonitorArea { x: 0, y: 0, width: 1920, height: 1080 },
        MonitorArea { x: 1920, y: 0, width: 1280, height: 1024 },
    ];
    let saved = WindowSettings { width: 3000, height: 200, x: Some(2500), y: Some(-50) };
    let restored = restored_window_settings(&saved, &monitors);
    assert_eq!(restored.width, 1280);
    assert_eq!(restored.height, 480);
    assert_eq!(restored.x, Some(1920));
    assert_eq!(restored.y, Some(0));

    let none = restored_window_settings(&WindowSettings { width: 100, height: 100, x: None, y: None }, &[]);
    assert_eq!(none, WindowSettings { width: 640, height: 480, x: None, y: None });
}
