use lithograph::definitions::named_definition_symbol;

#[test]
fn declarations_name_themselves_after_their_keyword() {
    assert_eq!(named_definition_symbol("interface_declaration", "export interface Foo<T> {"), Some("Foo".to_owned()));
    assert_eq!(named_definition_symbol("type_alias_declaration", "type Id=string"), Some("Id".to_owned()));
    assert_eq!(named_definition_symbol("enum_declaration", "export const enum $Color {"), Some("$Color".to_owned()));
    assert_eq!(named_definition_symbol("enum_declaration", "enum {"), None);
    assert_eq!(named_definition_symbol("enum_declaration", "enum"), None);
    assert_eq!(named_definition_symbol("class_declaration", "class Foo {}"), None);
    assert_eq!(named_definition_symbol("interface_declaration", "declare type X"), None);
}

#[test]
fn unicode_white_space_separates_declaration_words() {
    assert_eq!(named_definition_symbol("interface_declaration", "interface\u{3000}Wide {"), Some("Wide".to_owned()));
    assert_eq!(named_definition_symbol("type_alias_declaration", "type\u{2003}Em = string"), Some("Em".to_owned()));
    assert_eq!(named_definition_symbol("interface_declaration", "interface\u{200B}Zero {"), None);
}
