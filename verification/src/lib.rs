//! A bit-packed record view engine.
//!
//! Given a fixed, caller-owned byte buffer and a declarative layout, the
//! library exposes typed accessors that read and write individual fields,
//! some spanning whole bytes and some spanning only a few bits, without
//! copying the buffer.

pub mod field;
pub mod layout;
pub mod record;
pub mod underlay;

pub use field::Endianness;
pub use field::Field;
pub use field::FieldSpec;
pub use layout::BitfieldAttr;
pub use layout::FieldDecl;
pub use layout::LayoutError;
pub use layout::RecordLayout;
pub use layout::build_layout;
pub use record::AccessError;
pub use record::RecordView;
pub use underlay::RawField;
pub use underlay::RawFieldOps;
