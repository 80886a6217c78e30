use vstd::prelude::*;
use vstd::string::*;

verus! {

/// What a transaction was spent on: a well-known category, a labelled
/// miscellaneous one, or an unknown one.
#[derive(Debug, PartialEq, Eq, Hash)]
pub enum Category {
    Books,
    Charity,
    Clothing,
    Grocery,
    Education,
    Entrateinment,
    Fine,
    Gift,
    Healthcare,
    Hobby,
    Insurance,
    Rent,
    Restaurants,
    Savings,
    Shopping,
    Sport,
    Taxes,
    Transportation,
    Travel,
    Utilities,
    Miscellaneous(String),
    Unknown,
}

/// Text of "Miscellaneous" with a label, as categories show it.
pub open spec fn labelled_name(label: Seq<char>) -> Seq<char> {
    "Miscellaneous ("@ + label + ")"@
}

/// A category is identified by the text it shows as.
impl View for Category {
    type V = Seq<char>;

    open spec fn view(&self) -> Seq<char> {
        match self {
            Category::Books => "Books"@,
            Category::Charity => "Charity"@,
            Category::Clothing => "Clothing"@,
            Category::Grocery => "Grocery"@,
            Category::Education => "Education"@,
            Category::Entrateinment => "Entrateinment"@,
            Category::Fine => "Fine"@,
            Category::Gift => "Gift"@,
            Category::Healthcare => "Healthcare"@,
            Category::Hobby => "Hobby"@,
            Category::Insurance => "Insurance"@,
            Category::Rent => "Rent"@,
            Category::Restaurants => "Restaurants"@,
            Category::Savings => "Savings"@,
            Category::Shopping => "Shopping"@,
            Category::Sport => "Sport"@,
            Category::Taxes => "Taxes"@,
            Category::Transportation => "Transportation"@,
            Category::Travel => "Travel"@,
            Category::Utilities => "Utilities"@,
            Category::Miscellaneous(a) => if a@.len() == 0 {
                "Miscellaneous"@
            } else {
                labelled_name(a@)
            },
            Category::Unknown => "Unknown"@,
        }
    }
}

/// Texts of the categories that carry no label, in declaration order.
pub open spec fn fixed_names() -> Seq<Seq<char>> {
    seq![
        "Books"@,
        "Charity"@,
        "Clothing"@,
        "Grocery"@,
        "Education"@,
        "Entrateinment"@,
        "Fine"@,
        "Gift"@,
        "Healthcare"@,
        "Hobby"@,
        "Insurance"@,
        "Rent"@,
        "Restaurants"@,
        "Savings"@,
        "Shopping"@,
        "Sport"@,
        "Taxes"@,
        "Transportation"@,
        "Travel"@,
        "Utilities"@,
        "Miscellaneous"@,
        "Unknown"@
    ]
}

/// Keys of the per-bucket breakdowns: compared and copied by their text.
pub trait Key: Sized {
    spec fn key(&self) -> Seq<char>;

    fn same_key(&self, other: &Self) -> (r: bool)
        ensures
            r == (self.key() == other.key()),
    ;

    fn copy_key(&self) -> (r: Self)
        ensures
            r.key() == self.key(),
    ;
}

impl Key for String {
    open spec fn key(&self) -> Seq<char> {
        self@
    }

    fn same_key(&self, other: &Self) -> (r: bool) {
        *self == *other
    }

    fn copy_key(&self) -> (r: Self) {
        self.clone()
    }
}

impl Key for Category {
    open spec fn key(&self) -> Seq<char> {
        self@
    }

    fn same_key(&self, other: &Self) -> (r: bool) {
        self.name() == other.name()
    }

    fn copy_key(&self) -> (r: Self) {
        self.copy()
    }
}

impl Category {
    /// Whether the category is a miscellaneous one with a non-empty label.
    pub open spec fn is_labelled(&self) -> bool {
        self matches Category::Miscellaneous(a) && a@.len() > 0
    }

    /// Whether the category is what `from` makes of the text `s`.
    pub open spec fn named(&self, s: Seq<char>) -> bool {
        &&& fixed_names().contains(s) ==> self@ == s && !self.is_labelled()
        &&& !fixed_names().contains(s) ==> (self matches Category::Miscellaneous(a) && a@ == s)
    }

    /// The text the category shows as.
    pub fn name(&self) -> (r: String)
        ensures
            r@ == self@,
    {
        match self {
            Category::Books => String::from_str("Books"),
            Category::Charity => String::from_str("Charity"),
            Category::Clothing => String::from_str("Clothing"),
            Category::Grocery => String::from_str("Grocery"),
            Category::Education => String::from_str("Education"),
            Category::Entrateinment => String::from_str("Entrateinment"),
            Category::Fine => String::from_str("Fine"),
            Category::Gift => String::from_str("Gift"),
            Category::Healthcare => String::from_str("Healthcare"),
            Category::Hobby => String::from_str("Hobby"),
            Category::Insurance => String::from_str("Insurance"),
            Category::Rent => String::from_str("Rent"),
            Category::Restaurants => String::from_str("Restaurants"),
            Category::Savings => String::from_str("Savings"),
            Category::Shopping => String::from_str("Shopping"),
            Category::Sport => String::from_str("Sport"),
            Category::Taxes => String::from_str("Taxes"),
            Category::Transportation => String::from_str("Transportation"),
            Category::Travel => String::from_str("Travel"),
            Category::Utilities => String::from_str("Utilities"),
            Category::Miscellaneous(a) => {
                if a.as_str().unicode_len() == 0 {
                    String::from_str("Miscellaneous")
                } else {
                    let mut r = String::from_str("Miscellaneous (");
                    r.append(a.as_str());
                    r.append(")");
                    r
                }
            },
            Category::Unknown => String::from_str("Unknown"),
        }
    }

    /// A copy of the category.
    pub fn copy(&self) -> (r: Category)
        ensures
            r == *self,
    {
        match self {
            Category::Books => Category::Books,
            Category::Charity => Category::Charity,
            Category::Clothing => Category::Clothing,
            Category::Grocery => Category::Grocery,
            Category::Education => Category::Education,
            Category::Entrateinment => Category::Entrateinment,
            Category::Fine => Category::Fine,
            Category::Gift => Category::Gift,
            Category::Healthcare => Category::Healthcare,
            Category::Hobby => Category::Hobby,
            Category::Insurance => Category::Insurance,
            Category::Rent => Category::Rent,
            Category::Restaurants => Category::Restaurants,
            Category::Savings => Category::Savings,
            Category::Shopping => Category::Shopping,
            Category::Sport => Category::Sport,
            Category::Taxes => Category::Taxes,
            Category::Transportation => Category::Transportation,
            Category::Travel => Category::Travel,
            Category::Utilities => Category::Utilities,
            Category::Miscellaneous(a) => Category::Miscellaneous(a.clone()),
            Category::Unknown => Category::Unknown,
        }
    }

    /// Every category without a label, in declaration order.
    pub fn all_fixed() -> (r: Vec<Category>)
        ensures
            r@.len() == fixed_names().len(),
            forall|i: int| 0 <= i < r@.len() ==> (#[trigger] r@[i])@ == fixed_names()[i],
            forall|i: int| 0 <= i < r@.len() ==> !(#[trigger] r@[i]).is_labelled(),
    {
        let mut v: Vec<Category> = Vec::new();
    v.push(Category::Books);
    v.push(Category::Charity);
    v.push(Category::Clothing);
    v.push(Category::Grocery);
    v.push(Category::Education);
    v.push(Category::Entrateinment);
    v.push(Category::Fine);
    v.push(Category::Gift);
    v.push(Category::Healthcare);
    v.push(Category::Hobby);
    v.push(Category::Insurance);
    v.push(Category::Rent);
    v.push(Category::Restaurants);
    v.push(Category::Savings);
    v.push(Category::Shopping);
    v.push(Category::Sport);
    v.push(Category::Taxes);
    v.push(Category::Transportation);
    v.push(Category::Travel);
    v.push(Category::Utilities);
        v.push(Category::Miscellaneous(String::new()));
        v.push(Category::Unknown);
        v
    }

    /// The category whose text is `s`; any other text becomes the label of a
    /// miscellaneous category.
    pub fn from(s: &str) -> (r: Category)
        ensures
            r.named(s@),
    {
        let mut all = Category::all_fixed();
        let target = String::from_str(s);
        let n = all.len();
        let mut i: usize = 0;
        while i < n
            invariant
                n == all@.len() == fixed_names().len(),
                target@ == s@,
                i <= n,
                forall|j: int| 0 <= j < n ==> (#[trigger] all@[j])@ == fixed_names()[j],
                forall|j: int| 0 <= j < n ==> !(#[trigger] all@[j]).is_labelled(),
                forall|j: int| 0 <= j < i ==> fixed_names()[j] != s@,
            decreases n - i,
        {
            if all[i].name() == target {
                proof {
                    assert(fixed_names()[i as int] == s@);
                }
                return all.remove(i);
            }
            i += 1;
        }
        proof {
            assert(!fixed_names().contains(s@)) by {
                if fixed_names().contains(s@) {
                    let j = choose|j: int| 0 <= j < fixed_names().len() && fixed_names()[j] == s@;
                    assert(fixed_names()[j] != s@);
                }
            }
        }
        Category::Miscellaneous(target)
    }
}

} // verus!
