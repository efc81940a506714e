//! The generator type: the types that the virtual machine sees at run time.

use vstd::prelude::*;

use crate::bytecode::data_field_views;
use crate::bytecode::data_type_views;
use crate::bytecode::DataType;
use crate::bytecode::DataTypeView;
use crate::bytecode::IntegerType;
use crate::bytecode::ScalarType;
use crate::semantic::Structure;
use crate::semantic::Type as SemanticType;

verus! {

#[derive(Debug, PartialEq, Eq)]
pub enum Type {
    Unit,
    Boolean,
    IntegerUnsigned { bitlength: usize },
    IntegerSigned { bitlength: usize },
    Field,
    Array { element: Box<Type>, size: usize },
    Tuple { types: Vec<Type> },
    Structure { fields: Vec<(String, Type)> },
}

/// The mathematical content of a type: members as sequences, names as
/// sequences of characters.
pub enum TypeView {
    Unit,
    Boolean,
    IntegerUnsigned { bitlength: usize },
    IntegerSigned { bitlength: usize },
    Field,
    Array { element: Box<TypeView>, size: usize },
    Tuple { types: Seq<TypeView> },
    Structure { fields: Seq<(Seq<char>, TypeView)> },
}

pub open spec fn type_view(t: Type) -> TypeView
    decreases t,
{
    match t {
        Type::Unit => TypeView::Unit,
        Type::Boolean => TypeView::Boolean,
        Type::IntegerUnsigned { bitlength } => TypeView::IntegerUnsigned { bitlength },
        Type::IntegerSigned { bitlength } => TypeView::IntegerSigned { bitlength },
        Type::Field => TypeView::Field,
        Type::Array { element, size } => TypeView::Array { element: Box::new(type_view(*element)), size },
        Type::Tuple { types } => TypeView::Tuple { types: type_views(types@) },
        Type::Structure { fields } => TypeView::Structure { fields: field_views(fields@) },
    }
}

pub open spec fn type_views(s: Seq<Type>) -> Seq<TypeView>
    decreases s,
{
    if s.len() == 0 {
        Seq::empty()
    } else {
        type_views(s.drop_last()).push(type_view(s.last()))
    }
}

pub open spec fn field_views(s: Seq<(String, Type)>) -> Seq<(Seq<char>, TypeView)>
    decreases s,
{
    if s.len() == 0 {
        Seq::empty()
    } else {
        field_views(s.drop_last()).push((s.last().0@, type_view(s.last().1)))
    }
}

impl View for Type {
    type V = TypeView;

    open spec fn view(&self) -> TypeView {
        type_view(*self)
    }
}

pub open spec fn option_view(t: Option<Type>) -> Option<TypeView> {
    match t {
        Some(t) => Some(t@),
        None => None,
    }
}

pub proof fn lemma_type_views(s: Seq<Type>)
    ensures
        type_views(s).len() == s.len(),
        forall|i: int| 0 <= i < s.len() ==> #[trigger] type_views(s)[i] == type_view(s[i]),
    decreases s.len(),
{
    if s.len() > 0 {
        lemma_type_views(s.drop_last());
    }
}

pub proof fn lemma_field_views(s: Seq<(String, Type)>)
    ensures
        field_views(s).len() == s.len(),
        forall|i: int| 0 <= i < s.len() ==> #[trigger] field_views(s)[i] == (s[i].0@, type_view(s[i].1)),
    decreases s.len(),
{
    if s.len() > 0 {
        lemma_field_views(s.drop_last());
    }
}

/// The number of scalar values that a value of the type holds.
pub open spec fn spec_size(t: TypeView) -> nat
    decreases t,
{
    match t {
        TypeView::Unit => 0,
        TypeView::Boolean => 1,
        TypeView::IntegerUnsigned { .. } => 1,
        TypeView::IntegerSigned { .. } => 1,
        TypeView::Field => 1,
        TypeView::Array { element, size } => spec_size(*element) * (size as nat),
        TypeView::Tuple { types } => sizes_sum(types),
        TypeView::Structure { fields } => field_sizes_sum(fields),
    }
}

pub open spec fn sizes_sum(s: Seq<TypeView>) -> nat
    decreases s,
{
    if s.len() == 0 {
        0
    } else {
        sizes_sum(s.drop_last()) + spec_size(s.last())
    }
}

pub open spec fn field_sizes_sum(s: Seq<(Seq<char>, TypeView)>) -> nat
    decreases s,
{
    if s.len() == 0 {
        0
    } else {
        field_sizes_sum(s.drop_last()) + spec_size(s.last().1)
    }
}

/// The size of the type, and of every type in it, fits in a `usize`: the
/// size can be computed without overflow.
pub open spec fn size_fits(t: TypeView) -> bool
    decreases t,
{
    &&& spec_size(t) <= usize::MAX
    &&& match t {
        TypeView::Array { element, size } => size_fits(*element),
        TypeView::Tuple { types } => forall|i: int| 0 <= i < types.len() ==> size_fits(#[trigger] types[i]),
        TypeView::Structure { fields } => forall|i: int| 0 <= i < fields.len() ==> size_fits(#[trigger] fields[i].1),
        _ => true,
    }
}

pub proof fn lemma_sizes_sum_prefix(s: Seq<TypeView>, k: int)
    requires
        0 <= k < s.len(),
    ensures
        sizes_sum(s.take(k + 1)) == sizes_sum(s.take(k)) + spec_size(s[k]),
        sizes_sum(s.take(k + 1)) <= sizes_sum(s),
    decreases s.len(),
{
    assert(s.take(k + 1).drop_last() =~= s.take(k));
    if k + 1 < s.len() {
        lemma_sizes_sum_prefix(s.drop_last(), k);
        assert(s.drop_last().take(k + 1) =~= s.take(k + 1));
        assert(s.drop_last().take(k) =~= s.take(k));
    } else {
        assert(s.take(k + 1) =~= s);
    }
}

pub proof fn lemma_field_sizes_sum_prefix(s: Seq<(Seq<char>, TypeView)>, k: int)
    requires
        0 <= k < s.len(),
    ensures
        field_sizes_sum(s.take(k + 1)) == field_sizes_sum(s.take(k)) + spec_size(s[k].1),
        field_sizes_sum(s.take(k + 1)) <= field_sizes_sum(s),
    decreases s.len(),
{
    assert(s.take(k + 1).drop_last() =~= s.take(k));
    if k + 1 < s.len() {
        lemma_field_sizes_sum_prefix(s.drop_last(), k);
        assert(s.drop_last().take(k + 1) =~= s.take(k + 1));
        assert(s.drop_last().take(k) =~= s.take(k));
    } else {
        assert(s.take(k + 1) =~= s);
    }
}

impl Type {
    pub fn unit() -> (r: Type)
        ensures
            r@ == TypeView::Unit,
    {
        Type::Unit
    }

    pub fn boolean() -> (r: Type)
        ensures
            r@ == TypeView::Boolean,
    {
        Type::Boolean
    }

    pub fn integer_unsigned(bitlength: usize) -> (r: Type)
        ensures
            r@ == (TypeView::IntegerUnsigned { bitlength }),
    {
        Type::IntegerUnsigned { bitlength }
    }

    pub fn integer_signed(bitlength: usize) -> (r: Type)
        ensures
            r@ == (TypeView::IntegerSigned { bitlength }),
    {
        Type::IntegerSigned { bitlength }
    }

    pub fn integer(is_signed: bool, bitlength: usize) -> (r: Type)
        ensures
            r@ == if is_signed {
                TypeView::IntegerSigned { bitlength }
            } else {
                TypeView::IntegerUnsigned { bitlength }
            },
    {
        if is_signed {
            Type::IntegerSigned { bitlength }
        } else {
            Type::IntegerUnsigned { bitlength }
        }
    }

    pub fn field() -> (r: Type)
        ensures
            r@ == TypeView::Field,
    {
        Type::Field
    }

    pub fn array(element: Type, size: usize) -> (r: Type)
        ensures
            r@ == (TypeView::Array { element: Box::new(element@), size }),
    {
        Type::Array { element: Box::new(element), size }
    }

    pub fn tuple(types: Vec<Type>) -> (r: Type)
        ensures
            r@ == (TypeView::Tuple { types: type_views(types@) }),
    {
        Type::Tuple { types }
    }

    pub fn structure(fields: Vec<(String, Type)>) -> (r: Type)
        ensures
            r@ == (TypeView::Structure { fields: field_views(fields@) }),
    {
        Type::Structure { fields }
    }

    /// The number of scalar values that a value of the type holds: an array
    /// holds its size times what an element holds, a tuple or a structure
    /// the sum of what its members hold.
    pub fn size(&self) -> (r: usize)
        requires
            size_fits(self@),
        ensures
            r == spec_size(self@),
        decreases self,
    {
        match self {
            Type::Unit => 0,
            Type::Boolean => 1,
            Type::IntegerUnsigned { .. } => 1,
            Type::IntegerSigned { .. } => 1,
            Type::Field => 1,
            Type::Array { element, size } => {
                let element_size = element.size();
                element_size * *size
            },
            Type::Tuple { types } => {
                let ghost views = type_views(types@);
                proof {
                    lemma_type_views(types@);
                }
                let mut sum: usize = 0;
                let mut i: usize = 0;
                while i < types.len()
                    invariant
                        *self == (Type::Tuple { types: *types }),
                        views == type_views(types@),
                        views.len() == types.len(),
                        forall|k: int| 0 <= k < types.len() ==> #[trigger] views[k] == type_view(types@[k]),
                        forall|k: int| 0 <= k < views.len() ==> size_fits(#[trigger] views[k]),
                        sizes_sum(views) <= usize::MAX,
                        i <= types.len(),
                        sum == sizes_sum(views.take(i as int)),
                    decreases types.len() - i,
                {
                    proof {
                        lemma_sizes_sum_prefix(views, i as int);
                        assert(size_fits(views[i as int]));
                        assert(decreases_to!(*self => self->types));
                        assert(decreases_to!(*types => types@));
                        assert(decreases_to!(types@ => types@[i as int]));
                        assert(decreases_to!(*self => types@[i as int]));
                    }
                    let s = types[i].size();
                    sum = sum + s;
                    i = i + 1;
                }
                proof {
                    assert(views.take(i as int) =~= views);
                }
                sum
            },
            Type::Structure { fields } => {
                let ghost views = field_views(fields@);
                proof {
                    lemma_field_views(fields@);
                }
                let mut sum: usize = 0;
                let mut i: usize = 0;
                while i < fields.len()
                    invariant
                        *self == (Type::Structure { fields: *fields }),
                        views == field_views(fields@),
                        views.len() == fields.len(),
                        forall|k: int| 0 <= k < fields.len() ==> #[trigger] views[k] == (fields@[k].0@, type_view(fields@[k].1)),
                        forall|k: int| 0 <= k < views.len() ==> size_fits(#[trigger] views[k].1),
                        field_sizes_sum(views) <= usize::MAX,
                        i <= fields.len(),
                        sum == field_sizes_sum(views.take(i as int)),
                    decreases fields.len() - i,
                {
                    proof {
                        lemma_field_sizes_sum_prefix(views, i as int);
                        assert(size_fits(views[i as int].1));
                        assert(decreases_to!(*self => self->fields));
                        assert(decreases_to!(*fields => fields@));
                        assert(decreases_to!(fields@ => fields@[i as int]));
                        assert(decreases_to!(fields@[i as int] => fields@[i as int].1));
                        assert(decreases_to!(*self => fields@[i as int].1));
                    }
                    let s = fields[i].1.size();
                    sum = sum + s;
                    i = i + 1;
                }
                proof {
                    assert(views.take(i as int) =~= views);
                }
                sum
            },
        }
    }
}

/// The run-time type of a semantic type, where it has one: a scalar stays a
/// scalar, an enumeration becomes the unsigned integer that holds its
/// variants, an array keeps its size, a tuple or a structure keeps the
/// members that have a run-time type and has none if no member is left;
/// strings, ranges and functions have none.
pub open spec fn spec_from_semantic(t: SemanticType) -> Option<TypeView>
    decreases t,
{
    match t {
        SemanticType::Unit => Some(TypeView::Unit),
        SemanticType::Boolean => Some(TypeView::Boolean),
        SemanticType::IntegerUnsigned { bitlength } => Some(TypeView::IntegerUnsigned { bitlength }),
        SemanticType::IntegerSigned { bitlength } => Some(TypeView::IntegerSigned { bitlength }),
        SemanticType::Field => Some(TypeView::Field),
        SemanticType::Array { element, size } => match spec_from_semantic(*element) {
            Some(e) => Some(TypeView::Array { element: Box::new(e), size }),
            None => None,
        },
        SemanticType::Tuple { types } => {
            let converted = from_semantic_all(types@);
            if converted.len() > 0 {
                Some(TypeView::Tuple { types: converted })
            } else {
                None
            }
        },
        SemanticType::Structure(structure) => {
            let converted = from_semantic_fields(structure.fields@);
            if converted.len() > 0 {
                Some(TypeView::Structure { fields: converted })
            } else {
                None
            }
        },
        SemanticType::Enumeration(enumeration) => Some(TypeView::IntegerUnsigned { bitlength: enumeration.bitlength }),
        _ => None,
    }
}

/// The run-time types of the members that have one, in order.
pub open spec fn from_semantic_all(s: Seq<SemanticType>) -> Seq<TypeView>
    decreases s,
{
    if s.len() == 0 {
        Seq::empty()
    } else {
        let rest = from_semantic_all(s.drop_last());
        match spec_from_semantic(s.last()) {
            Some(v) => rest.push(v),
            None => rest,
        }
    }
}

/// The fields that have a run-time type, with their names, in order.
pub open spec fn from_semantic_fields(s: Seq<(String, SemanticType)>) -> Seq<(Seq<char>, TypeView)>
    decreases s,
{
    if s.len() == 0 {
        Seq::empty()
    } else {
        let rest = from_semantic_fields(s.drop_last());
        match spec_from_semantic(s.last().1) {
            Some(v) => rest.push((s.last().0@, v)),
            None => rest,
        }
    }
}

/// The bytecode data type of a type.
pub open spec fn spec_data_type(t: TypeView) -> DataTypeView
    decreases t,
{
    match t {
        TypeView::Unit => DataTypeView::Unit,
        TypeView::Boolean => DataTypeView::Scalar(ScalarType::Boolean),
        TypeView::IntegerUnsigned { bitlength } => DataTypeView::Scalar(
            ScalarType::Integer(IntegerType { is_signed: false, bitlength }),
        ),
        TypeView::IntegerSigned { bitlength } => DataTypeView::Scalar(
            ScalarType::Integer(IntegerType { is_signed: true, bitlength }),
        ),
        TypeView::Field => DataTypeView::Scalar(ScalarType::Field),
        TypeView::Array { element, size } => DataTypeView::Array(Box::new(spec_data_type(*element)), size),
        TypeView::Tuple { types } => DataTypeView::Tuple(data_all(types)),
        TypeView::Structure { fields } => DataTypeView::Struct(data_fields(fields)),
    }
}

pub open spec fn data_all(s: Seq<TypeView>) -> Seq<DataTypeView>
    decreases s,
{
    if s.len() == 0 {
        Seq::empty()
    } else {
        data_all(s.drop_last()).push(spec_data_type(s.last()))
    }
}

pub open spec fn data_fields(s: Seq<(Seq<char>, TypeView)>) -> Seq<(Seq<char>, DataTypeView)>
    decreases s,
{
    if s.len() == 0 {
        Seq::empty()
    } else {
        data_fields(s.drop_last()).push((s.last().0, spec_data_type(s.last().1)))
    }
}

/// The scalar type of a type, where it is a scalar.
pub open spec fn spec_scalar_type(t: TypeView) -> Option<ScalarType> {
    match t {
        TypeView::Boolean => Some(ScalarType::Boolean),
        TypeView::IntegerUnsigned { bitlength } => Some(ScalarType::Integer(IntegerType { is_signed: false, bitlength })),
        TypeView::IntegerSigned { bitlength } => Some(ScalarType::Integer(IntegerType { is_signed: true, bitlength })),
        TypeView::Field => Some(ScalarType::Field),
        _ => None,
    }
}

impl Type {
    /// The run-time type of a semantic type, where it has one.
    pub fn try_from_semantic(semantic: &SemanticType) -> (r: Option<Type>)
        ensures
            option_view(r) == spec_from_semantic(*semantic),
        decreases semantic,
    {
        match semantic {
            SemanticType::Unit => Some(Self::unit()),
            SemanticType::Boolean => Some(Self::boolean()),
            SemanticType::IntegerUnsigned { bitlength } => Some(Self::integer_unsigned(*bitlength)),
            SemanticType::IntegerSigned { bitlength } => Some(Self::integer_signed(*bitlength)),
            SemanticType::Field => Some(Self::field()),
            SemanticType::Array { element, size } => match Self::try_from_semantic(element) {
                Some(e) => Some(Self::array(e, *size)),
                None => None,
            },
            SemanticType::Tuple { types } => {
                let mut converted: Vec<Type> = Vec::new();
                let mut i: usize = 0;
                while i < types.len()
                    invariant
                        *semantic == (SemanticType::Tuple { types: *types }),
                        i <= types.len(),
                        type_views(converted@) == from_semantic_all(types@.take(i as int)),
                    decreases types.len() - i,
                {
                    proof {
                        assert(decreases_to!(*semantic => semantic->types));
                        assert(decreases_to!(*types => types@));
                        assert(decreases_to!(types@ => types@[i as int]));
                        assert(types@.take(i + 1).drop_last() =~= types@.take(i as int));
                    }
                    let ghost before = converted@;
                    match Self::try_from_semantic(&types[i]) {
                        Some(t) => {
                            converted.push(t);
                            proof {
                                assert(converted@.drop_last() =~= before);
                            }
                        },
                        None => {},
                    }
                    i = i + 1;
                }
                proof {
                    assert(types@.take(i as int) =~= types@);
                    lemma_type_views(converted@);
                }
                if converted.len() > 0 {
                    Some(Self::tuple(converted))
                } else {
                    None
                }
            },
            SemanticType::Structure(structure) => {
                let fields = &structure.fields;
                let mut converted: Vec<(String, Type)> = Vec::new();
                let mut i: usize = 0;
                while i < fields.len()
                    invariant
                        *semantic == SemanticType::Structure(*structure),
                        *fields == structure.fields,
                        i <= fields.len(),
                        field_views(converted@) == from_semantic_fields(fields@.take(i as int)),
                    decreases fields.len() - i,
                {
                    proof {
                        assert(decreases_to!(*semantic => semantic->Structure_0));
                        assert(decreases_to!(*structure => structure.fields));
                        assert(decreases_to!(*fields => fields@));
                        assert(decreases_to!(fields@ => fields@[i as int]));
                        assert(decreases_to!(fields@[i as int] => fields@[i as int].1));
                        assert(fields@.take(i + 1).drop_last() =~= fields@.take(i as int));
                    }
                    let ghost before = converted@;
                    match Self::try_from_semantic(&fields[i].1) {
                        Some(t) => {
                            let name = fields[i].0.clone();
                            converted.push((name, t));
                            proof {
                                assert(converted@.drop_last() =~= before);
                            }
                        },
                        None => {},
                    }
                    i = i + 1;
                }
                proof {
                    assert(fields@.take(i as int) =~= fields@);
                    lemma_field_views(converted@);
                }
                if converted.len() > 0 {
                    Some(Self::structure(converted))
                } else {
                    None
                }
            },
            SemanticType::Enumeration(enumeration) => Some(Self::integer_unsigned(enumeration.bitlength)),
            _ => None,
        }
    }

    /// The scalar type of the type, where it is a scalar.
    pub fn into_scalar_type(self) -> (r: Option<ScalarType>)
        ensures
            r == spec_scalar_type(self@),
    {
        match self {
            Type::Boolean => Some(ScalarType::Boolean),
            Type::IntegerUnsigned { bitlength } => Some(ScalarType::Integer(IntegerType { is_signed: false, bitlength })),
            Type::IntegerSigned { bitlength } => Some(ScalarType::Integer(IntegerType { is_signed: true, bitlength })),
            Type::Field => Some(ScalarType::Field),
            _ => None,
        }
    }
}

pub proof fn lemma_data_type_views_push(s: Seq<DataType>, d: DataType)
    ensures
        data_type_views(s.push(d)) == data_type_views(s).push(d@),
{
    assert(s.push(d).drop_last() =~= s);
}

pub proof fn lemma_data_field_views_push(s: Seq<(String, DataType)>, d: (String, DataType))
    ensures
        data_field_views(s.push(d)) == data_field_views(s).push((d.0@, d.1@)),
{
    assert(s.push(d).drop_last() =~= s);
}

impl Type {
    /// The bytecode data type of the type.
    pub fn into_data_type(self) -> (r: DataType)
        ensures
            r@ == spec_data_type(self@),
        decreases self,
    {
        let ghost whole = self;
        match self {
            Type::Unit => DataType::Unit,
            Type::Boolean => DataType::Scalar(ScalarType::Boolean),
            Type::IntegerUnsigned { bitlength } => DataType::Scalar(
                ScalarType::Integer(IntegerType { is_signed: false, bitlength }),
            ),
            Type::IntegerSigned { bitlength } => DataType::Scalar(
                ScalarType::Integer(IntegerType { is_signed: true, bitlength }),
            ),
            Type::Field => DataType::Scalar(ScalarType::Field),
            Type::Array { element, size } => {
                let element_type = (*element).into_data_type();
                DataType::Array(Box::new(element_type), size)
            },
            Type::Tuple { types } => {
                let ghost all = types;
                let ghost views = type_views(all@);
                proof {
                    lemma_type_views(all@);
                }
                let mut types = types;
                let mut converted: Vec<DataType> = Vec::new();
                while types.len() > 0
                    invariant
                        whole == self,
                        whole == (Type::Tuple { types: all }),
                        views == type_views(all@),
                        views.len() == all@.len(),
                        forall|k: int| 0 <= k < all@.len() ==> #[trigger] views[k] == type_view(all@[k]),
                        converted.len() <= all@.len(),
                        types@ == all@.skip(converted.len() as int),
                        data_type_views(converted@) == data_all(views.take(converted.len() as int)),
                    decreases types.len(),
                {
                    let ghost k = converted.len() as int;
                    proof {
                        assert(decreases_to!(whole => whole->types));
                        assert(decreases_to!(all => all@));
                        assert(decreases_to!(all@ => all@[k]));
                        assert(views.take(k + 1).drop_last() =~= views.take(k));
                    }
                    let t = types.remove(0);
                    proof {
                        assert(t == all@[k]);
                        assert(decreases_to!(whole => t));
                    }
                    let d = t.into_data_type();
                    proof {
                        lemma_data_type_views_push(converted@, d);
                    }
                    converted.push(d);
                    proof {
                        assert(types@ =~= all@.skip(converted.len() as int));
                    }
                }
                proof {
                    assert(views.take(converted.len() as int) =~= views);
                }
                DataType::Tuple(converted)
            },
            Type::Structure { fields } => {
                let ghost all = fields;
                let ghost views = field_views(all@);
                proof {
                    lemma_field_views(all@);
                }
                let mut fields = fields;
                let mut converted: Vec<(String, DataType)> = Vec::new();
                while fields.len() > 0
                    invariant
                        whole == self,
                        whole == (Type::Structure { fields: all }),
                        views == field_views(all@),
                        views.len() == all@.len(),
                        forall|k: int| 0 <= k < all@.len() ==> #[trigger] views[k] == (all@[k].0@, type_view(all@[k].1)),
                        converted.len() <= all@.len(),
                        fields@ == all@.skip(converted.len() as int),
                        data_field_views(converted@) == data_fields(views.take(converted.len() as int)),
                    decreases fields.len(),
                {
                    let ghost k = converted.len() as int;
                    proof {
                        assert(decreases_to!(whole => whole->fields));
                        assert(decreases_to!(all => all@));
                        assert(decreases_to!(all@ => all@[k]));
                        assert(decreases_to!(all@[k] => all@[k].1));
                        assert(views.take(k + 1).drop_last() =~= views.take(k));
                    }
                    let (name, t) = fields.remove(0);
                    proof {
                        assert(t == all@[k].1);
                        assert(decreases_to!(whole => t));
                    }
                    let d = t.into_data_type();
                    proof {
                        lemma_data_field_views_push(converted@, (name, d));
                    }
                    converted.push((name, d));
                    proof {
                        assert(fields@ =~= all@.skip(converted.len() as int));
                    }
                }
                proof {
                    assert(views.take(converted.len() as int) =~= views);
                }
                DataType::Struct(converted)
            },
        }
    }
}

/// Every tuple and every structure in the type has at least one member.
pub open spec fn members_nonempty(t: TypeView) -> bool
    decreases t,
{
    match t {
        TypeView::Array { element, size } => members_nonempty(*element),
        TypeView::Tuple { types } => types.len() > 0 && forall|i: int| 0 <= i < types.len() ==> members_nonempty(#[trigger] types[i]),
        TypeView::Structure { fields } => fields.len() > 0 && forall|i: int| 0 <= i < fields.len() ==> members_nonempty(#[trigger] fields[i].1),
        _ => true,
    }
}

/// The two views of a type as a scalar agree: the bytecode data type of a
/// type is the scalar `s` exactly when its scalar type is `s`.
pub proof fn law_scalar_type_agrees_with_data_type(t: TypeView, s: ScalarType)
    ensures
        spec_scalar_type(t) == Some(s) <==> spec_data_type(t) == DataTypeView::Scalar(s),
{
}

proof fn lemma_from_semantic_nonempty(t: SemanticType)
    ensures
        spec_from_semantic(t) matches Some(v) ==> members_nonempty(v),
    decreases t, 1nat,
{
    match t {
        SemanticType::Array { element, size } => {
            lemma_from_semantic_nonempty(*element);
            if let Some(e) = spec_from_semantic(*element) {
                assert(spec_from_semantic(t) == Some(TypeView::Array { element: Box::new(e), size }));
                assert(members_nonempty(e));
                assert(members_nonempty(TypeView::Array { element: Box::new(e), size }));
            }
        },
        SemanticType::Tuple { types } => {
            lemma_from_semantic_all_nonempty(types@);
            let converted = from_semantic_all(types@);
            assert(forall|i: int| 0 <= i < converted.len() ==> members_nonempty(#[trigger] converted[i]));
        },
        SemanticType::Structure(structure) => {
            lemma_from_semantic_fields_nonempty(structure.fields@);
            let converted = from_semantic_fields(structure.fields@);
            assert(forall|i: int| 0 <= i < converted.len() ==> members_nonempty(#[trigger] converted[i].1));
        },
        _ => {},
    }
}

proof fn lemma_from_semantic_all_nonempty(s: Seq<SemanticType>)
    ensures
        forall|i: int| 0 <= i < from_semantic_all(s).len() ==> members_nonempty(#[trigger] from_semantic_all(s)[i]),
    decreases s, 0nat,
{
    if s.len() > 0 {
        lemma_from_semantic_all_nonempty(s.drop_last());
        lemma_from_semantic_nonempty(s.last());
        let rest = from_semantic_all(s.drop_last());
        assert(forall|i: int| 0 <= i < rest.len() ==> members_nonempty(#[trigger] rest[i]));
        match spec_from_semantic(s.last()) {
            Some(v) => {
                assert(from_semantic_all(s) == rest.push(v));
                assert(members_nonempty(v));
            },
            None => {
                assert(from_semantic_all(s) == rest);
            },
        }
    }
}

proof fn lemma_from_semantic_fields_nonempty(s: Seq<(String, SemanticType)>)
    ensures
        forall|i: int| 0 <= i < from_semantic_fields(s).len() ==> members_nonempty(#[trigger] from_semantic_fields(s)[i].1),
    decreases s, 0nat,
{
    if s.len() > 0 {
        lemma_from_semantic_fields_nonempty(s.drop_last());
        lemma_from_semantic_nonempty(s.last().1);
        let rest = from_semantic_fields(s.drop_last());
        assert(forall|i: int| 0 <= i < rest.len() ==> members_nonempty(#[trigger] rest[i].1));
        match spec_from_semantic(s.last().1) {
            Some(v) => {
                assert(from_semantic_fields(s) == rest.push((s.last().0@, v)));
                assert(members_nonempty(v));
            },
            None => {
                assert(from_semantic_fields(s) == rest);
            },
        }
    }
}

/// Conversion from a semantic type never yields a tuple or a structure
/// without members: members without a run-time type are dropped, and an
/// aggregate that is left empty has no run-time type itself.
pub proof fn law_from_semantic_members_nonempty(t: SemanticType)
    ensures
        spec_from_semantic(t) matches Some(v) ==> members_nonempty(v),
{
    lemma_from_semantic_nonempty(t);
}

/// The size of a tuple of the members of `a` followed by those of `b` is the
/// sum of the sizes of the two tuples.
pub proof fn law_tuple_size_adds(a: Seq<TypeView>, b: Seq<TypeView>)
    ensures
        spec_size(TypeView::Tuple { types: a + b }) == spec_size(TypeView::Tuple { types: a }) + spec_size(
            TypeView::Tuple { types: b },
        ),
    decreases b.len(),
{
    if b.len() == 0 {
        assert(a + b =~= a);
        assert(sizes_sum(b) == 0);
    } else {
        law_tuple_size_adds(a, b.drop_last());
        assert((a + b).drop_last() =~= a + b.drop_last());
        assert((a + b).last() == b.last());
        assert(sizes_sum(a + b) == sizes_sum(a + b.drop_last()) + spec_size(b.last()));
        assert(sizes_sum(b) == sizes_sum(b.drop_last()) + spec_size(b.last()));
    }
}

/// A structure has the size of the tuple of its fields' types, whatever
/// the fields' names.
pub proof fn law_structure_size_is_tuple_size(names: Seq<Seq<char>>, types: Seq<TypeView>)
    requires
        names.len() == types.len(),
    ensures
        spec_size(TypeView::Structure { fields: names.zip_with(types) }) == spec_size(TypeView::Tuple { types }),
    decreases types.len(),
{
    if types.len() > 0 {
        law_structure_size_is_tuple_size(names.drop_last(), types.drop_last());
        let z = names.zip_with(types);
        let z0 = names.drop_last().zip_with(types.drop_last());
        assert(spec_size(TypeView::Structure { fields: z0 }) == field_sizes_sum(z0));
        assert(spec_size(TypeView::Tuple { types: types.drop_last() }) == sizes_sum(types.drop_last()));
        assert(spec_size(TypeView::Structure { fields: z }) == field_sizes_sum(z));
        assert(spec_size(TypeView::Tuple { types }) == sizes_sum(types));
        assert(z.len() == types.len());
        assert(z.drop_last() =~= names.drop_last().zip_with(types.drop_last()));
        assert(z.last().1 == types.last());
        assert(field_sizes_sum(z) == field_sizes_sum(z.drop_last()) + spec_size(z.last().1));
        assert(sizes_sum(types) == sizes_sum(types.drop_last()) + spec_size(types.last()));
    } else {
        assert(names.zip_with(types) =~= Seq::<(Seq<char>, TypeView)>::empty());
        let z = names.zip_with(types);
        assert(z.len() == 0);
        assert(field_sizes_sum(z) == 0);
        assert(sizes_sum(types) == 0);
        assert(spec_size(TypeView::Structure { fields: z }) == field_sizes_sum(z));
        assert(spec_size(TypeView::Tuple { types }) == sizes_sum(types));
    }
}

/// An array of `m + n` elements has the size of an array of `m` of them and
/// an array of `n` of them together.
pub proof fn law_array_size_adds(element: TypeView, m: usize, n: usize)
    requires
        m + n <= usize::MAX,
    ensures
        spec_size(TypeView::Array { element: Box::new(element), size: (m + n) as usize }) == spec_size(
            TypeView::Array { element: Box::new(element), size: m },
        ) + spec_size(TypeView::Array { element: Box::new(element), size: n }),
{
    let s = spec_size(element);
    assert(s * ((m + n) as nat) == s * (m as nat) + s * (n as nat)) by (nonlinear_arith);
}

/// An array of `n` arrays of `m` elements has the size of an array of
/// `m * n` elements.
pub proof fn law_nested_array_size(element: TypeView, m: usize, n: usize)
    requires
        m * n <= usize::MAX,
    ensures
        spec_size(
            TypeView::Array { element: Box::new(TypeView::Array { element: Box::new(element), size: m }), size: n },
        ) == spec_size(TypeView::Array { element: Box::new(element), size: (m * n) as usize }),
{
    let s = spec_size(element);
    let k = (m * n) as usize;
    assert(k as nat == (m as nat) * (n as nat));
    assert((s * (m as nat)) * (n as nat) == s * ((m as nat) * (n as nat))) by (nonlinear_arith);
    let inner = TypeView::Array { element: Box::new(element), size: m };
    assert(spec_size(inner) == s * (m as nat));
    assert(spec_size(TypeView::Array { element: Box::new(inner), size: n }) == spec_size(inner) * (n as nat));
    assert(spec_size(TypeView::Array { element: Box::new(element), size: k }) == s * (k as nat));
}

/// `out` is the sequence of the fields of `fields` that have a run-time
/// type, with their names and run-time types, in their order: `idx[k]` is
/// the place in `fields` of the `k`-th of them.
pub open spec fn runtime_fields_at(
    idx: Seq<int>,
    out: Seq<(Seq<char>, TypeView)>,
    fields: Seq<(String, SemanticType)>,
) -> bool {
    &&& idx.len() == out.len()
    &&& forall|k: int|
        0 <= k < idx.len() ==> 0 <= #[trigger] idx[k] < fields.len() && spec_from_semantic(fields[idx[k]].1) is Some
            && out[k] == (fields[idx[k]].0@, spec_from_semantic(fields[idx[k]].1)->Some_0)
    &&& forall|k: int, l: int| 0 <= k < l < idx.len() ==> #[trigger] idx[k] < #[trigger] idx[l]
    &&& forall|i: int|
        0 <= i < fields.len() && #[trigger] spec_from_semantic(fields[i].1) is Some ==> exists|k: int|
            0 <= k < idx.len() && #[trigger] idx[k] == i
}

/// `out` is the sequence of the members of `types` that have a run-time
/// type, as run-time types, in their order: `idx[k]` is the place in
/// `types` of the `k`-th of them.
pub open spec fn runtime_members_at(idx: Seq<int>, out: Seq<TypeView>, types: Seq<SemanticType>) -> bool {
    &&& idx.len() == out.len()
    &&& forall|k: int|
        0 <= k < idx.len() ==> 0 <= #[trigger] idx[k] < types.len() && spec_from_semantic(types[idx[k]]) is Some
            && out[k] == spec_from_semantic(types[idx[k]])->Some_0
    &&& forall|k: int, l: int| 0 <= k < l < idx.len() ==> #[trigger] idx[k] < #[trigger] idx[l]
    &&& forall|i: int|
        0 <= i < types.len() && #[trigger] spec_from_semantic(types[i]) is Some ==> exists|k: int|
            0 <= k < idx.len() && #[trigger] idx[k] == i
}

proof fn lemma_from_semantic_fields_places(fields: Seq<(String, SemanticType)>) -> (idx: Seq<int>)
    ensures
        runtime_fields_at(idx, from_semantic_fields(fields), fields),
    decreases fields.len(),
{
    if fields.len() == 0 {
        Seq::empty()
    } else {
        let front = fields.drop_last();
        let idx0 = lemma_from_semantic_fields_places(front);
        let out0 = from_semantic_fields(front);
        let n = fields.len() - 1;
        assert forall|i: int| 0 <= i < n implies #[trigger] front[i] == fields[i] by {}
        match spec_from_semantic(fields.last().1) {
            Some(v) => {
                let idx = idx0.push(n);
                let out = out0.push((fields.last().0@, v));
                assert(out == from_semantic_fields(fields));
                assert forall|k: int| 0 <= k < idx.len() implies 0 <= #[trigger] idx[k] < fields.len()
                    && spec_from_semantic(fields[idx[k]].1) is Some && out[k] == (
                    fields[idx[k]].0@,
                    spec_from_semantic(fields[idx[k]].1)->Some_0,
                ) by {
                    if k < idx0.len() {
                        assert(idx[k] == idx0[k]);
                        assert(front[idx0[k]] == fields[idx0[k]]);
                    }
                }
                assert forall|k: int, l: int| 0 <= k < l < idx.len() implies #[trigger] idx[k] < #[trigger] idx[l] by {
                    if l < idx0.len() {
                        assert(idx0[k] < idx0[l]);
                    } else {
                        assert(idx[k] == idx0[k]);
                        assert(idx0[k] < front.len());
                    }
                }
                assert forall|i: int|
                    0 <= i < fields.len() && #[trigger] spec_from_semantic(fields[i].1) is Some implies exists|k: int|
                    0 <= k < idx.len() && #[trigger] idx[k] == i by {
                    if i < n {
                        assert(spec_from_semantic(front[i].1) is Some);
                        let k = choose|k: int| 0 <= k < idx0.len() && #[trigger] idx0[k] == i;
                        assert(idx[k] == i);
                    } else {
                        assert(idx[idx.len() - 1] == i);
                    }
                }
                idx
            },
            None => {
                assert(out0 == from_semantic_fields(fields));
                assert forall|k: int| 0 <= k < idx0.len() implies 0 <= #[trigger] idx0[k] < fields.len()
                    && spec_from_semantic(fields[idx0[k]].1) is Some && out0[k] == (
                    fields[idx0[k]].0@,
                    spec_from_semantic(fields[idx0[k]].1)->Some_0,
                ) by {
                    assert(front[idx0[k]] == fields[idx0[k]]);
                }
                assert forall|i: int|
                    0 <= i < fields.len() && #[trigger] spec_from_semantic(fields[i].1) is Some implies exists|k: int|
                    0 <= k < idx0.len() && #[trigger] idx0[k] == i by {
                    assert(i < n);
                    assert(spec_from_semantic(front[i].1) is Some);
                }
                idx0
            },
        }
    }
}

proof fn lemma_from_semantic_all_places(types: Seq<SemanticType>) -> (idx: Seq<int>)
    ensures
        runtime_members_at(idx, from_semantic_all(types), types),
    decreases types.len(),
{
    if types.len() == 0 {
        Seq::empty()
    } else {
        let front = types.drop_last();
        let idx0 = lemma_from_semantic_all_places(front);
        let out0 = from_semantic_all(front);
        let n = types.len() - 1;
        assert forall|i: int| 0 <= i < n implies #[trigger] front[i] == types[i] by {}
        match spec_from_semantic(types.last()) {
            Some(v) => {
                let idx = idx0.push(n);
                let out = out0.push(v);
                assert(out == from_semantic_all(types));
                assert forall|k: int| 0 <= k < idx.len() implies 0 <= #[trigger] idx[k] < types.len()
                    && spec_from_semantic(types[idx[k]]) is Some && out[k] == spec_from_semantic(types[idx[k]])->Some_0 by {
                    if k < idx0.len() {
                        assert(idx[k] == idx0[k]);
                        assert(front[idx0[k]] == types[idx0[k]]);
                    }
                }
                assert forall|k: int, l: int| 0 <= k < l < idx.len() implies #[trigger] idx[k] < #[trigger] idx[l] by {
                    if l < idx0.len() {
                        assert(idx0[k] < idx0[l]);
                    } else {
                        assert(idx[k] == idx0[k]);
                        assert(idx0[k] < front.len());
                    }
                }
                assert forall|i: int|
                    0 <= i < types.len() && #[trigger] spec_from_semantic(types[i]) is Some implies exists|k: int|
                    0 <= k < idx.len() && #[trigger] idx[k] == i by {
                    if i < n {
                        assert(spec_from_semantic(front[i]) is Some);
                        let k = choose|k: int| 0 <= k < idx0.len() && #[trigger] idx0[k] == i;
                        assert(idx[k] == i);
                    } else {
                        assert(idx[idx.len() - 1] == i);
                    }
                }
                idx
            },
            None => {
                assert(out0 == from_semantic_all(types));
                assert forall|k: int| 0 <= k < idx0.len() implies 0 <= #[trigger] idx0[k] < types.len()
                    && spec_from_semantic(types[idx0[k]]) is Some && out0[k] == spec_from_semantic(types[idx0[k]])->Some_0 by {
                    assert(front[idx0[k]] == types[idx0[k]]);
                }
                assert forall|i: int|
                    0 <= i < types.len() && #[trigger] spec_from_semantic(types[i]) is Some implies exists|k: int|
                    0 <= k < idx0.len() && #[trigger] idx0[k] == i by {
                    assert(i < n);
                    assert(spec_from_semantic(front[i]) is Some);
                }
                idx0
            },
        }
    }
}

/// A semantic structure with at least one field of a run-time type
/// converts to a structure whose fields are exactly its fields of a
/// run-time type, with their names and run-time types, in their order;
/// one with no such field converts to nothing.
pub proof fn law_structure_converts_to_its_runtime_fields(structure: Structure)
    ensures
        (exists|i: int| 0 <= i < structure.fields@.len() && #[trigger] spec_from_semantic(structure.fields@[i].1) is Some)
            ==> ({
            let converted = spec_from_semantic(SemanticType::Structure(structure));
            &&& converted is Some
            &&& converted->Some_0 is Structure
            &&& exists|idx: Seq<int>| #[trigger] runtime_fields_at(idx, converted->Some_0->fields, structure.fields@)
        }),
        !(exists|i: int| 0 <= i < structure.fields@.len() && #[trigger] spec_from_semantic(structure.fields@[i].1) is Some)
            ==> spec_from_semantic(SemanticType::Structure(structure)) is None,
{
    let fields = structure.fields@;
    let idx = lemma_from_semantic_fields_places(fields);
    let out = from_semantic_fields(fields);
    if exists|i: int| 0 <= i < fields.len() && #[trigger] spec_from_semantic(fields[i].1) is Some {
        let i = choose|i: int| 0 <= i < fields.len() && #[trigger] spec_from_semantic(fields[i].1) is Some;
        let k = choose|k: int| 0 <= k < idx.len() && #[trigger] idx[k] == i;
        assert(out.len() > 0);
        assert(spec_from_semantic(SemanticType::Structure(structure)) == Some(TypeView::Structure { fields: out }));
        assert(runtime_fields_at(idx, out, fields));
        let converted = spec_from_semantic(SemanticType::Structure(structure));
        assert(converted->Some_0->fields == out);
        assert(runtime_fields_at(idx, converted->Some_0->fields, structure.fields@));
    } else if out.len() > 0 {
        assert(spec_from_semantic(fields[idx[0]].1) is Some);
    }
}

/// A semantic tuple with at least one member of a run-time type converts
/// to a tuple whose members are exactly its members of a run-time type, as
/// run-time types, in their order; one with no such member converts to
/// nothing.
pub proof fn law_tuple_converts_to_its_runtime_members(types: Vec<SemanticType>)
    ensures
        (exists|i: int| 0 <= i < types@.len() && #[trigger] spec_from_semantic(types@[i]) is Some) ==> (
        {
            let converted = spec_from_semantic(SemanticType::Tuple { types });
            &&& converted is Some
            &&& converted->Some_0 is Tuple
            &&& exists|idx: Seq<int>| #[trigger] runtime_members_at(idx, converted->Some_0->types, types@)
        }),
        !(exists|i: int| 0 <= i < types@.len() && #[trigger] spec_from_semantic(types@[i]) is Some)
            ==> spec_from_semantic(SemanticType::Tuple { types }) is None,
{
    let s = types@;
    let idx = lemma_from_semantic_all_places(s);
    let out = from_semantic_all(s);
    if exists|i: int| 0 <= i < s.len() && #[trigger] spec_from_semantic(s[i]) is Some {
        let i = choose|i: int| 0 <= i < s.len() && #[trigger] spec_from_semantic(s[i]) is Some;
        let k = choose|k: int| 0 <= k < idx.len() && #[trigger] idx[k] == i;
        assert(out.len() > 0);
        assert(spec_from_semantic(SemanticType::Tuple { types }) == Some(TypeView::Tuple { types: out }));
        assert(runtime_members_at(idx, out, s));
        let converted = spec_from_semantic(SemanticType::Tuple { types });
        assert(converted->Some_0->types == out);
        assert(runtime_members_at(idx, converted->Some_0->types, types@));
    } else if out.len() > 0 {
        assert(spec_from_semantic(s[idx[0]]) is Some);
    }
}

} // verus!
