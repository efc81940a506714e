//! The data types of the bytecode: what the virtual machine knows of a value.

use vstd::prelude::*;

verus! {

#[derive(Debug, Clone, Copy, PartialEq, Eq)]
pub struct IntegerType {
    pub is_signed: bool,
    pub bitlength: usize,
}

#[derive(Debug, Clone, Copy, PartialEq, Eq)]
pub enum ScalarType {
    Boolean,
    Integer(IntegerType),
    Field,
}

#[derive(Debug, PartialEq, Eq)]
pub enum DataType {
    Unit,
    Scalar(ScalarType),
    Array(Box<DataType>, usize),
    Tuple(Vec<DataType>),
    Struct(Vec<(String, DataType)>),
}

/// The mathematical content of a data type: members as sequences, names as
/// sequences of characters.
pub enum DataTypeView {
    Unit,
    Scalar(ScalarType),
    Array(Box<DataTypeView>, usize),
    Tuple(Seq<DataTypeView>),
    Struct(Seq<(Seq<char>, DataTypeView)>),
}

pub open spec fn data_type_view(d: DataType) -> DataTypeView
    decreases d,
{
    match d {
        DataType::Unit => DataTypeView::Unit,
        DataType::Scalar(s) => DataTypeView::Scalar(s),
        DataType::Array(element, size) => DataTypeView::Array(Box::new(data_type_view(*element)), size),
        DataType::Tuple(types) => DataTypeView::Tuple(data_type_views(types@)),
        DataType::Struct(fields) => DataTypeView::Struct(data_field_views(fields@)),
    }
}

pub open spec fn data_type_views(s: Seq<DataType>) -> Seq<DataTypeView>
    decreases s,
{
    if s.len() == 0 {
        Seq::empty()
    } else {
        data_type_views(s.drop_last()).push(data_type_view(s.last()))
    }
}

pub open spec fn data_field_views(s: Seq<(String, DataType)>) -> Seq<(Seq<char>, DataTypeView)>
    decreases s,
{
    if s.len() == 0 {
        Seq::empty()
    } else {
        data_field_views(s.drop_last()).push((s.last().0@, data_type_view(s.last().1)))
    }
}

impl View for DataType {
    type V = DataTypeView;

    open spec fn view(&self) -> DataTypeView {
        data_type_view(*self)
    }
}

} // verus!
