use rel_lang::ast::{BinOp, Expr, Item, Program, Stmt};
use rel_lang::lang::{Error, Locals};
use rel_lang::relation::Relation;

#[test]
fn test_item_name() {
    let procedure = Item::Procedure {
        name: "RTC1".to_string(),
        params: vec!["R".to_string()],
        decls: vec!["P".to_string()],
        body: vec![Stmt::Return {
            value: Expr::Ident {
                ident: "R".to_string(),
            },
        }],
    };
    assert_eq!(procedure.name(), "RTC1");
    let function = Item::Function {
        name: "sym".to_string(),
        params: vec!["R".to_string()],
        value: Expr::BinExpr {
            left: Box::new(Expr::Ident {
                ident: "R".to_string(),
            }),
            op: BinOp::Union,
            right: Box::new(Expr::Transpose {
                value: Box::new(Expr::Ident {
                    ident: "R".to_string(),
                }),
            }),
        },
    };
    assert_eq!(function.name(), "sym");
    let program = Program {
        items: vec![procedure, function],
    };
    assert_eq!(program.items.len(), 2);
}

#[test]
fn test_locals_assign_and_get() {
    let mut locals = Locals::new();
    assert!(matches!(
        locals.get("R"),
        Err(Error::UnknownLocal { .. })
    ));
    locals.assign("R", Relation::sparse((2, 2), &vec![(0, 1)]));
    let r = locals.get("R").unwrap();
    assert!(r.contains((0, 1)));
    assert!(!r.contains((1, 0)));
    locals.assign("R", Relation::empty((2, 2)));
    let r2 = locals.get("R").unwrap();
    assert!(r2.is_empty());
    locals.assign("S", Relation::universal((1, 1)));
    assert!(locals.get("S").unwrap().contains((0, 0)));
    assert!(locals.get("R").unwrap().is_empty());
}

#[test]
fn test_locals_variables_by_prefix() {
    let mut locals = Locals::new();
    locals.assign("Row", Relation::empty((1, 1)));
    locals.assign("Rest", Relation::empty((1, 1)));
    locals.assign("Seed", Relation::empty((1, 1)));
    let names = locals.variables_by_prefix("R");
    assert_eq!(names.len(), 2);
    assert!(names.contains(&"Row".to_string()));
    assert!(names.contains(&"Rest".to_string()));
    let all = locals.variables_by_prefix("");
    assert_eq!(all.len(), 3);
    let none = locals.variables_by_prefix("X");
    assert!(none.is_empty());
}
