use orca::desktop::{optional_path, run_id_for, workflow_config_dto};
use orca::gui::{selected_config_label, workflow_config_label};

#[test]
fn workflow_files_are_labelled_with_their_directory() {
    assert_eq!(workflow_config_label("config/orca.toml"), "orca.toml (config)");
    assert_eq!(workflow_config_label("orca.toml"), "orca.toml");
}

#[test]
fn picker_caption_names_the_selected_file() {
    assert_eq!(selected_config_label("   "), "Selected: config/orca.default.toml");
    assert_eq!(selected_config_label(" config/x.yaml "), "Selected: x.yaml");
}

#[test]
fn workflow_dtos_split_name_and_directory() {
    let dto = workflow_config_dto("config/a.toml".to_string());
    assert_eq!(dto.path, "config/a.toml");
    assert_eq!(dto.name, "a.toml");
    assert_eq!(dto.directory, "config");
    let bare = workflow_config_dto("a.toml".to_string());
    assert_eq!(bare.name, "a.toml");
    assert_eq!(bare.directory, "");
}

#[test]
fn desktop_paths_and_run_ids() {
    assert_eq!(optional_path(Some("  ")), None);
    assert_eq!(optional_path(Some(" x ")), Some("x".to_string()));
    assert_eq!(optional_path(None), None);
    assert_eq!(run_id_for(42), "run-42");
}
