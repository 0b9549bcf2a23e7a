//! The syntax tree of a document, and its model over `Seq<char>`.

use vstd::prelude::*;

verus! {

/// One block of a document.
#[derive(Debug, Clone)]
pub enum Block {
    Paragraph(String),
    Fields(Vec<(String, String)>),
    Heading(u8, String),
    List(bool, Vec<String>),
    Code(String, String),
    Quote(String),
    Image { src: String, alt: String, caption: Option<String> },
    Table(Vec<Vec<String>>),
    Math(String),
    Note(Option<String>, String),
    Reference(String, String, String),
}

/// A parsed document: its title and its blocks in order.
#[derive(Debug, Clone)]
pub struct Document {
    pub title: String,
    pub blocks: Vec<Block>,
}

/// The model of a [`Block`]: the same shape, with text as `Seq<char>`.
pub enum SpecBlock {
    Paragraph(Seq<char>),
    Fields(Seq<(Seq<char>, Seq<char>)>),
    Heading(u8, Seq<char>),
    List(bool, Seq<Seq<char>>),
    Code(Seq<char>, Seq<char>),
    Quote(Seq<char>),
    Image { src: Seq<char>, alt: Seq<char>, caption: Option<Seq<char>> },
    Table(Seq<Seq<Seq<char>>>),
    Math(Seq<char>),
    Note(Option<Seq<char>>, Seq<char>),
    Reference(Seq<char>, Seq<char>, Seq<char>),
}

/// The model of a [`Document`].
pub struct SpecDocument {
    pub title: Seq<char>,
    pub blocks: Seq<SpecBlock>,
}

pub open spec fn string_views(v: Seq<String>) -> Seq<Seq<char>> {
    v.map_values(|s: String| s@)
}

pub open spec fn field_views(v: Seq<(String, String)>) -> Seq<(Seq<char>, Seq<char>)> {
    v.map_values(|p: (String, String)| (p.0@, p.1@))
}

pub open spec fn row_views(v: Seq<Vec<String>>) -> Seq<Seq<Seq<char>>> {
    v.map_values(|r: Vec<String>| string_views(r@))
}

pub open spec fn option_view(o: Option<String>) -> Option<Seq<char>> {
    match o {
        Some(s) => Some(s@),
        None => None,
    }
}

impl View for Block {
    type V = SpecBlock;

    open spec fn view(&self) -> SpecBlock {
        match self {
            Block::Paragraph(s) => SpecBlock::Paragraph(s@),
            Block::Fields(f) => SpecBlock::Fields(field_views(f@)),
            Block::Heading(l, s) => SpecBlock::Heading(*l, s@),
            Block::List(o, items) => SpecBlock::List(*o, string_views(items@)),
            Block::Code(l, b) => SpecBlock::Code(l@, b@),
            Block::Quote(s) => SpecBlock::Quote(s@),
            Block::Image { src, alt, caption } => SpecBlock::Image {
                src: src@,
                alt: alt@,
                caption: option_view(*caption),
            },
            Block::Table(rows) => SpecBlock::Table(row_views(rows@)),
            Block::Math(s) => SpecBlock::Math(s@),
            Block::Note(t, b) => SpecBlock::Note(option_view(*t), b@),
            Block::Reference(l, t, u) => SpecBlock::Reference(l@, t@, u@),
        }
    }
}

pub open spec fn block_views(v: Seq<Block>) -> Seq<SpecBlock> {
    v.map_values(|b: Block| b@)
}

impl View for Document {
    type V = SpecDocument;

    open spec fn view(&self) -> SpecDocument {
        SpecDocument { title: self.title@, blocks: block_views(self.blocks@) }
    }
}

} // verus!
