/// Merging the walks of all configured bindings into one result.
pub mod aggregate;
/// Sequences of key-value pairs and the mappings they denote.
pub mod mapping;
/// Placeholder substitution in component source text.
pub mod resolver;
/// The discovery result: component keys to substituted contents.
pub mod results;
/// Small verified helpers on strings.
pub mod strutil;
/// The replacement table and how it is read from a replacement file.
pub mod table;
/// Directory-tree walking and component-key derivation.
pub mod walker;
