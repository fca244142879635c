use focus_core::extension::{Extension, MetaData, PluginManager, DEFAULT_PRIORITY};

#[test]
fn metadata_builder_and_identity() {
    let m = MetaData::default_builder("files");
    assert_eq!(m.id(), "files");
    assert_eq!(m.version(), "1.0.0");
    assert_eq!(m.priority(), DEFAULT_PRIORITY);
    let m2 = MetaData::default_builder("files").set_priority(5).set_version("2.1").build();
    assert_eq!(m2.priority(), 5);
    assert_eq!(m2.version(), "2.1");
    assert!(m == m2);
    assert!(m != MetaData::default_builder("apps"));
}

struct Named(&'static str, usize);

impl Extension<Vec<String>> for Named {
    fn loaded(&self, before: Vec<String>, after: Vec<String>) -> bool {
        let mut expected = before;
        expected.push(format!("load {}", self.0));
        expected == after
    }

    fn on_plugin_load(&self, core: &mut Vec<String>) {
        core.push(format!("load {}", self.0));
    }

    fn on_plugin_unload(&self, core: &mut Vec<String>) {
        core.push(format!("unload {}", self.0));
    }

    fn get_meta_data(&self) -> MetaData {
        MetaData::default_builder(self.0).set_priority(self.1)
    }
}

#[test]
fn plugins_load_in_registration_order_not_priority() {
    let plugins = PluginManager::new()
        .add_extension(Named("low", 1))
        .add_extension(Named("high", 500));
    assert_eq!(plugins.len(), 2);
    let mut log: Vec<String> = Vec::new();
    plugins.load_all(&mut log);
    assert!(Named("low", 1).loaded(Vec::new(), vec!["load low".to_string()]));
    assert!(Named("high", 500).loaded(vec!["load low".to_string()], log.clone()));
    plugins.unload_all(&mut log);
    assert_eq!(log, vec!["load low", "load high", "unload low", "unload high"]);
}

struct Quiet;

impl Extension<Vec<String>> for Quiet {
    fn loaded(&self, before: Vec<String>, after: Vec<String>) -> bool {
        before == after
    }

    fn on_plugin_load(&self, _core: &mut Vec<String>) {}

    fn get_meta_data(&self) -> MetaData {
        MetaData::default_builder("quiet")
    }
}

#[test]
fn default_unload_hook_does_nothing() {
    let plugins = PluginManager::new().add_extension(Quiet);
    let mut log: Vec<String> = vec!["start".to_string()];
    plugins.load_all(&mut log);
    plugins.unload_all(&mut log);
    assert_eq!(log, vec!["start"]);
    assert_eq!(Quiet.get_meta_data().id(), "quiet");
}
