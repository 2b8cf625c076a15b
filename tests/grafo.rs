use grafo_rs::{Arista, AristaT, Bipartido, Diarista, Digrafo, Emparejamiento, Grafo, GrafoT, NoPeso};

#[test]
fn tests_test_adicion_aristas() {
    let mut grafo0: Grafo<i32, NoPeso> = Grafo::from_aristas(
        [
            Arista::arista_sin_peso(1, 2),
            Arista::arista_sin_peso(2, 3),
            Arista::arista_sin_peso(3, 4),
            Arista::VerticeAislado(10),
            Arista::arista_sin_peso(3, 2),
        ]
        .to_vec(),
    );
    assert_eq!(grafo0.get_aristas().len(), 4);
    grafo0.add_aristas(vec![Arista::arista_sin_peso(2, 3), Arista::arista_sin_peso(3, 2)]);
    assert_eq!(grafo0.get_aristas().len(), 4);
}

#[test]
fn tests_test_eliminacion_aristas_vertices() {
    let mut grafo0: Grafo<i32, NoPeso> = Grafo::from_aristas(
        [
            Arista::arista_sin_peso(1, 2),
            Arista::arista_sin_peso(2, 3),
            Arista::arista_sin_peso(3, 4),
            Arista::VerticeAislado(10),
            Arista::arista_sin_peso(3, 2),
        ]
        .to_vec(),
    );

    assert_eq!(grafo0.grado(&10), Some(0), "Comprobar que el vertice 10 tiene grado 0");
    grafo0.remove_vertice(&10);
    assert_eq!(grafo0.grado(&10), None, "Comprobar que se haya eliminado");

    let mut grafo1 = grafo0.clone();

    grafo0.remove_arista(&Arista::arista_sin_peso(3, 4));
    assert_eq!(grafo0.grado(&3), Some(1));
    assert_eq!(grafo0.grado(&4), Some(0));

    grafo1.remove_vertice(&2);
    assert_eq!(grafo1.grado(&3), Some(1));
    assert_eq!(grafo1.grado(&1), Some(0));
}

#[test]
fn test_eliminacion_aristas_vertices() {
    let mut grafo0: Digrafo<i32, NoPeso> = Digrafo::from_aristas(
        [
            Diarista::arista_sin_peso(1, 2),
            Diarista::arista_sin_peso(2, 3),
            Diarista::arista_sin_peso(3, 4),
            Diarista::VerticeAislado(10),
            Diarista::arista_sin_peso(3, 2),
        ]
        .to_vec(),
    );

    assert_eq!(grafo0.grado(&10), Some(0), "Comprobar que el vertice 10 tiene grado 0");
    grafo0.remove_vertice(&10);
    assert_eq!(grafo0.grado(&10), None, "Comprobar que se haya eliminado");

    let mut grafo1 = grafo0.clone();

    grafo0.remove_arista(&Diarista::arista_sin_peso(3, 2));
    assert!(!grafo0.get_aristas().contains(&Diarista::arista_sin_peso(3, 2)));
    assert!(
        grafo0.get_aristas().contains(&Diarista::arista_sin_peso(2, 3)),
        "Comprobamos que se ha eliminado la arista correcta"
    );

    grafo1.remove_vertice(&2);
    assert_eq!(grafo1.grado(&3), Some(1));
    assert_eq!(grafo1.grado(&1), Some(0));
}

#[test]
fn tests_test_grado() {
    let grafo0: Grafo<i32, NoPeso> = Grafo::from_aristas(
        [
            Arista::arista_sin_peso(1, 2),
            Arista::arista_sin_peso(2, 3),
            Arista::arista_sin_peso(3, 2),
            Arista::VerticeAislado(5),
        ]
        .to_vec(),
    );

    assert_eq!(Some(0), grafo0.grado(&5));
    assert_eq!(Some(1), grafo0.grado(&1));
    assert_eq!(Some(2), grafo0.grado(&2));
    assert_eq!(None, grafo0.grado(&20));
}

#[test]
fn tests_test_entorno() {
    let grafo0: Grafo<i32, NoPeso> = Grafo::from_aristas(
        [Arista::arista_sin_peso(1, 2), Arista::arista_sin_peso(2, 3), Arista::VerticeAislado(5)].to_vec(),
    );

    assert_eq!(vec![2], grafo0.entorno(&1).unwrap());
    assert_eq!(vec![1, 3], grafo0.entorno(&2).unwrap());
}

#[test]
fn tests_test_get_vertices() {
    let grafo0: Grafo<i32, NoPeso> = Grafo::from_aristas(
        [
            Arista::arista_sin_peso(1, 2),
            Arista::arista_sin_peso(2, 3),
            Arista::arista_sin_peso(3, 2),
            Arista::VerticeAislado(5),
        ]
        .to_vec(),
    );

    assert_eq!(vec![1, 2, 3, 5], grafo0.get_vertices());
}

#[test]
fn tests_test_sucesion_grados() {
    let grafo0: Grafo<i32, NoPeso> = Grafo::from_aristas(
        [
            Arista::arista_sin_peso(1, 2),
            Arista::arista_sin_peso(2, 3),
            Arista::arista_sin_peso(3, 2),
            Arista::VerticeAislado(5),
        ]
        .to_vec(),
    );

    assert_eq!(vec![2, 1, 1, 0], grafo0.sucesion_grados());
}

#[test]
fn test_grafo_subyacente() {
    let digrafo: Digrafo<i32> = Digrafo::from_aristas(
        [
            Diarista::arista_sin_peso(1, 2),
            Diarista::arista_sin_peso(2, 1),
            Diarista::arista_sin_peso(2, 3),
            Diarista::vertice(10),
            Diarista::arista_sin_peso(3, 1),
        ]
        .to_vec(),
    );

    assert_eq!(digrafo.grado(&3), Some(2), "Comprobamos creacion basica");

    let subyacente = digrafo.grafo_subyacente();
    assert_eq!(subyacente.grado(&1), Some(2), "Comprobacion de grados");
    assert_eq!(subyacente.grado(&2), Some(2), "Comprobacion de grados");
    assert_eq!(subyacente.grado(&10), Some(0), "Vertice aislado");
    assert_eq!(subyacente.grado(&3), Some(2), "Comprobacion final");
}

#[test]
fn test_grados() {
    let digrafo: Digrafo<i32> = Digrafo::from_aristas(
        [
            Diarista::arista_sin_peso(1, 2),
            Diarista::arista_sin_peso(2, 1),
            Diarista::arista_sin_peso(5, 6),
            Diarista::arista_sin_peso(4, 5),
            Diarista::arista_sin_peso(4, 2),
            Diarista::vertice(10),
        ]
        .to_vec(),
    );

    assert_eq!(digrafo.grado_entrada(&10), Some(0), "Vertice aislado");
    assert_eq!(digrafo.grado_salida(&10), Some(0), "Vertice aislado");

    assert_eq!(digrafo.grado_entrada(&2), Some(2), "Grado de entrada de 2");
    assert_eq!(digrafo.grado_salida(&2), Some(1), "Grado de salida de 2");
    assert_eq!(digrafo.grado_entrada(&4), Some(0), "Grado de entrada de 4");
    assert_eq!(digrafo.grado_salida(&4), Some(2), "Grado de salida de 4");

    assert_eq!(digrafo.grado_entrada(&20), None, "Vertice inexistente");
}

#[test]
fn test_creacion_emparejamiento() {
    let aristas: Vec<Arista<i32, NoPeso>> =
        vec![Arista::arista_sin_peso(1, 2), Arista::arista_sin_peso(3, 6), Arista::arista_sin_peso(5, 4)];
    let mut emp1 = Emparejamiento::new(aristas.clone()).expect("El emparejamiento es valido");

    assert!(emp1.size() == 3);
    assert!(!emp1.es_libre(&4));
    assert!(emp1.es_libre(&10));
    assert!(emp1.buscar_arista(&1).expect("La arista esta en el emparejamiento") == aristas[0]);
    emp1.quitar_arista(&aristas[2]);
    assert!(emp1.es_libre(&4));

    assert!(emp1.recorrer(&6).expect("El vertice 6 esta saturado") == 3);
}

#[test]
fn test_creacion_emparejamiento_2() {
    let aristas: Vec<Arista<i32, NoPeso>> =
        vec![Arista::arista_sin_peso(1, 2), Arista::arista_sin_peso(2, 3), Arista::arista_sin_peso(4, 5)];

    assert!(Emparejamiento::new(aristas).is_none(), "El emparejamiento no es valido");

    let aristas: Vec<Arista<i32, NoPeso>> = vec![
        Arista::vertice(10),
        Arista::arista_sin_peso(1, 2),
        Arista::arista_sin_peso(3, 6),
        Arista::arista_sin_peso(5, 4),
    ];

    assert!(Emparejamiento::new(aristas).is_none(), "Contiene un vertice aislado");
}

#[test]
fn test_grafo_no_bipartido() {
    let g: Grafo<i32, NoPeso> = Grafo::from_aristas(
        [Arista::arista_sin_peso(1, 2), Arista::arista_sin_peso(2, 3), Arista::arista_sin_peso(1, 3)].to_vec(),
    );

    assert!(Bipartido::from_grafo(&g).is_none());
}

#[test]
fn test_grafo_no_bipartido_2() {
    let g: Grafo<i32, NoPeso> = Grafo::from_aristas(
        [
            Arista::arista_sin_peso(1, 2),
            Arista::arista_sin_peso(1, 3),
            Arista::arista_sin_peso(1, 4),
            Arista::arista_sin_peso(2, 4),
            Arista::arista_sin_peso(2, 5),
            Arista::vertice(10),
        ]
        .to_vec(),
    );

    assert!(Bipartido::from_grafo(&g).is_none());
}

#[test]
fn test_grafo_bipartido() {
    let g: Grafo<i32, NoPeso> = Grafo::from_aristas(
        [
            Arista::arista_sin_peso(1, 2),
            Arista::arista_sin_peso(1, 3),
            Arista::arista_sin_peso(3, 4),
            Arista::arista_sin_peso(4, 5),
            Arista::arista_sin_peso(1, 5),
            Arista::VerticeAislado(10),
        ]
        .to_vec(),
    );

    let bipartido = Bipartido::from_grafo(&g).expect("El grafo es bipartido");
    let aristas = bipartido.get_aristas();
    assert!(aristas.contains(&Arista::arista_sin_peso(1, 2)));
    assert!(aristas.contains(&Arista::arista_sin_peso(4, 3)));
    assert!(!aristas.contains(&Arista::vertice(10)), "No deben haber vertices aislados");
    let aristas: Vec<(i32, i32)> =
        aristas.iter().map(|x| x.get_vertices().expect("No pueden haber vertices aislados")).collect();
    assert!(!aristas.contains(&(3, 4)), "El orden no es correcto");
}

#[test]
fn test_grafo_bipartido_partes() {
    let g: Grafo<i32, NoPeso> = Grafo::from_aristas(
        [
            Arista::arista_sin_peso(1, 2),
            Arista::arista_sin_peso(1, 3),
            Arista::arista_sin_peso(3, 4),
            Arista::arista_sin_peso(4, 5),
            Arista::arista_sin_peso(1, 5),
            Arista::VerticeAislado(10),
        ]
        .to_vec(),
    );

    let bipartido = Bipartido::from_grafo(&g).expect("El grafo es bipartido");

    let vertices_esperados_x = vec![1, 4];
    let vertices_esperados_y = vec![2, 3, 5];

    assert!(bipartido.get_vertices_x() == vertices_esperados_x);
    assert!(bipartido.get_vertices_y() == vertices_esperados_y);
}
