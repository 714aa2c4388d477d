use gpui_commands::{ActionId, Command, CommandRegistry};

fn ping() -> ActionId {
    ActionId::new("Ping", 1)
}

fn pong() -> ActionId {
    ActionId::new("Pong", 2)
}

#[test]
fn builder_defaults() {
    let command: Command<()> = Command::new("Save File", ActionId::new("SaveFile", 10));
    assert_eq!(command.name(), "Save File");
    assert_eq!(command.category_name(), "General");
    assert!(command.binding().is_none());
    assert_eq!(command.action().name(), "SaveFile");
}

#[test]
fn builder_chaining() {
    let command = Command::new("Toggle Sidebar", ActionId::new("ToggleSidebar", 11))
        .category("View")
        .keybinding("cmd-b")
        .handler(|| {});
    assert_eq!(command.category_name(), "View");
    assert_eq!(command.binding().unwrap(), "cmd-b");
    assert!(command.has_handler());
}

#[test]
fn register_and_introspect() {
    let mut registry = CommandRegistry::new();
    registry.register(Command::new("Ping", ping()).handler(()));
    registry.register(Command::new("Pong", pong()).handler(()));
    assert_eq!(registry.commands().len(), 2);
    assert_eq!(registry.commands()[0].name(), "Ping");
    assert_eq!(registry.commands()[1].category_name(), "General");
}

#[test]
fn duplicate_action_type_is_detected() {
    let mut registry = CommandRegistry::new();
    registry.register(Command::new("Ping", ping()).handler(()));
    assert!(registry.is_registered(ping().type_key));
    assert!(!registry.is_registered(pong().type_key));
}

#[test]
fn missing_handler_is_detected() {
    let command: Command<()> = Command::new("Ping", ping());
    assert!(!command.has_handler());
    assert!(command.handler(()).has_handler());
}

#[test]
fn handler_is_kept() {
    let command = Command::new("Ping", ping()).handler(7u32);
    assert_eq!(command.handler_ref(), Some(&7u32));
    let bare: Command<u32> = Command::new("Pong", pong());
    assert_eq!(bare.handler_ref(), None);
}

#[test]
fn builders_keep_other_fields() {
    let command = Command::new("Format Document", ActionId::new("FormatDocument", 3))
        .keybinding("cmd-shift-f")
        .category("Edit")
        .handler(());
    assert_eq!(command.name(), "Format Document");
    assert_eq!(command.category_name(), "Edit");
    assert_eq!(command.binding(), Some("cmd-shift-f"));
    assert_eq!(command.action().type_key, 3);
}

#[test]
fn commands_keep_registration_order() {
    let mut registry = CommandRegistry::new();
    registry.register(Command::new("B", ActionId::new("B", 5)).handler(()));
    registry.register(Command::new("A", ActionId::new("A", 4)).handler(()));
    registry.register(Command::new("C", ActionId::new("C", 6)).handler(()));
    let names: Vec<&str> = registry.commands().iter().map(|c| c.name()).collect();
    assert_eq!(names, vec!["B", "A", "C"]);
}

#[test]
fn bound_commands_lists_commands_with_keybindings() {
    let mut registry = CommandRegistry::new();
    registry.register(Command::new("Save", ActionId::new("Save", 1)).keybinding("cmd-s").handler(()));
    registry.register(Command::new("Format", ActionId::new("Format", 2)).handler(()));
    registry.register(Command::new("Sidebar", ActionId::new("Sidebar", 3)).keybinding("cmd-b").handler(()));
    assert_eq!(registry.bound_commands(), vec![0, 2]);
}

#[test]
fn default_registry_is_empty() {
    let registry: CommandRegistry<()> = CommandRegistry::default();
    assert!(registry.commands().is_empty());
}
