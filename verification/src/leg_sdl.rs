use vstd::prelude::*;
use crate::interp::{value_views, InterpValue, Value};
use crate::text::{decimal, decimal_text, joined};

verus! {

/// One line of output: a text, or a number that is still to be written in
/// decimal.
#[derive(Debug)]
pub enum Line {
    Text(String),
    Number(u64),
}

pub enum LineView {
    Text(Seq<char>),
    Number(u64),
}

impl View for Line {
    type V = LineView;

    open spec fn view(&self) -> LineView {
        match self {
            Line::Text(text) => LineView::Text(text@),
            Line::Number(bits) => LineView::Number(*bits),
        }
    }
}

/// The line that stands for a value.
pub open spec fn line_of(value: Value) -> LineView {
    match value {
        Value::Void => LineView::Text("VOID"@),
        Value::Boolean(b) => LineView::Text(
            if b {
                "BOOLEAN true"@
            } else {
                "BOOLEAN false"@
            },
        ),
        Value::Number(bits) => LineView::Number(bits),
        Value::String(text) => LineView::Text(text),
        Value::Function { id, closure_id } => LineView::Text("FUNCTION "@ + decimal(id)),
        Value::Struct(index) => LineView::Text("STRUCT "@ + decimal(index)),
    }
}

/// The lines of a list, each as a mathematical value.
pub open spec fn line_views(lines: Seq<Line>) -> Seq<LineView> {
    lines.map_values(|l: Line| l@)
}

/// The line that stands for a value.
pub fn print_line(value: &InterpValue) -> (res: Line)
    ensures
        res@ == line_of(value@),
{
    match value {
        InterpValue::InterpVoid => Line::Text("VOID".to_owned()),
        InterpValue::InterpBoolean(b) => {
            if *b {
                Line::Text("BOOLEAN true".to_owned())
            } else {
                Line::Text("BOOLEAN false".to_owned())
            }
        },
        InterpValue::InterpNumber(bits) => Line::Number(*bits),
        InterpValue::InterpString(text) => Line::Text(text.clone()),
        InterpValue::InterpFunction { id, closure_id } => Line::Text(
            joined("FUNCTION ", decimal_text(*id).as_str()),
        ),
        InterpValue::InterpStruct(index) => Line::Text(
            joined("STRUCT ", decimal_text(*index).as_str()),
        ),
    }
}

/// The lines that stand for a list of values.
pub open spec fn lines_of(values: Seq<Value>) -> Seq<LineView> {
    values.map_values(|v: Value| line_of(v))
}

/// The lines that printing a list of values writes, one for each value.
pub fn print(arguments: &Vec<InterpValue>) -> (res: Vec<Line>)
    ensures
        line_views(res@) == lines_of(value_views(arguments@)),
{
    let mut lines: Vec<Line> = Vec::new();
    let mut i: usize = 0;
    assert(line_views(lines@) =~= lines_of(value_views(arguments@).take(0)));
    while i < arguments.len()
        invariant
            0 <= i <= arguments@.len(),
            line_views(lines@) == lines_of(value_views(arguments@).take(i as int)),
        decreases arguments@.len() - i,
    {
        let ghost before = line_views(lines@);
        let line = print_line(&arguments[i]);
        lines.push(line);
        assert(line_views(lines@) =~= before.push(line_of(arguments@[i as int]@)));
        assert(lines_of(value_views(arguments@).take(i + 1)) =~= lines_of(
            value_views(arguments@).take(i as int),
        ).push(line_of(arguments@[i as int]@)));
        i += 1;
    }
    assert(value_views(arguments@).take(i as int) =~= value_views(arguments@));
    lines
}

} // verus!
