use lithograph::builder::{Artifact, BuilderState};
use lithograph::imports::{python_dependency_name, python_relative_target};
use lithograph::model::ArtifactCategory;

#[test]
fn relative_imports_climb_from_the_importing_package() {
    assert_eq!(python_relative_target("pkg.sub.mod", false, 1, Some("util")), Some("pkg.sub.util".to_owned()));
    assert_eq!(python_relative_target("pkg.sub", true, 1, Some("util")), Some("pkg.sub.util".to_owned()));
    assert_eq!(python_relative_target("pkg.sub.mod", false, 2, None), Some("pkg".to_owned()));
    assert_eq!(python_relative_target("pkg.mod", false, 3, Some("x")), Some("x".to_owned()));
    assert_eq!(python_relative_target("mod", false, 1, None), None);
    assert_eq!(python_relative_target("..pkg..mod.", false, 1, Some("y")), Some("pkg.y".to_owned()));
}

#[test]
fn absolute_imports_name_the_module_itself() {
    assert_eq!(python_relative_target("pkg.mod", false, 0, Some("os.path")), Some("os.path".to_owned()));
    assert_eq!(python_relative_target("pkg.mod", false, 0, None), None);
}

#[test]
fn dependency_names_stop_at_the_first_specifier_character() {
    assert_eq!(python_dependency_name("requests>=2.0"), "requests");
    assert_eq!(python_dependency_name("my-pkg_name.x[extra]"), "my-pkg_name.x");
    assert_eq!(python_dependency_name("flask"), "flask");
    assert_eq!(python_dependency_name(" leading"), "");
    assert_eq!(python_dependency_name(""), "");
}

fn python_artifact(path: &str) -> Artifact {
    Artifact {
        id: format!("id:{path}"),
        path: path.to_owned(),
        category: ArtifactCategory::SourceCode,
        detected_format: Some("python".to_owned()),
    }
}

#[test]
fn package_relative_modules_start_at_the_first_package_directory() {
    let state = BuilderState::new(&vec![
        python_artifact("backend/app/__init__.py"),
        python_artifact("backend/app/core/__init__.py"),
        python_artifact("backend/app/core/config.py"),
        python_artifact("app2/__init__.py"),
        python_artifact("app2/x.py"),
        python_artifact("scripts/run.py"),
    ]);
    assert_eq!(state.python_package_relative_module("backend/app/core/config.py"), Some("app.core.config".to_owned()));
    assert_eq!(state.python_package_relative_module("backend/app/core/__init__.py"), Some("app.core".to_owned()));
    assert_eq!(state.python_package_relative_module("app2/x.py"), None);
    assert_eq!(state.python_package_relative_module("scripts/run.py"), None);
    assert_eq!(state.python_package_relative_module("backend/app/core/config.txt"), None);
}
