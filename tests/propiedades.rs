use grafo_rs::{
    arbol_anchura, arbol_camino_minimo, arbol_peso_minimo, arbol_profundidad, comprobar_sucesion,
    encontrar_camino_aumento, maximizar_flujo, Arbol, Arista, AristaT, Bipartido, Diarista, Digrafo, Emparejamiento,
    Etiqueta, Etiquetado, Flujo, Grafo, GrafoT, NoPeso, PesoT, Red,
};

#[test]
fn reinsertar_arista_no_cambia_cuentas() {
    let mut g: Grafo<i32, NoPeso> =
        Grafo::from_aristas(vec![Arista::arista_sin_peso(1, 2), Arista::arista_sin_peso(2, 3)]);
    let aristas = g.get_aristas().len();
    let vertices = g.size();
    g.add_aristas(vec![Arista::arista_sin_peso(2, 1)]);
    assert_eq!(g.get_aristas().len(), aristas);
    assert_eq!(g.size(), vertices);
}

#[test]
fn reinsertar_vertice_no_cambia_cuentas() {
    let mut g: Grafo<i32, NoPeso> = Grafo::from_aristas(vec![Arista::arista_sin_peso(1, 2), Arista::vertice(7)]);
    let aristas = g.get_aristas().len();
    let vertices = g.size();
    g.add_vertices(vec![1, 7, 2]);
    assert_eq!(g.get_aristas().len(), aristas);
    assert_eq!(g.size(), vertices);
    g.add_vertices(vec![9, 9]);
    assert_eq!(g.get_aristas().len(), aristas + 1);
    assert_eq!(g.size(), vertices + 1);
}

#[test]
fn arista_simetrica_y_arco_dirigido() {
    let a: Arista<i32, NoPeso> = Arista::arista_sin_peso(1, 2);
    assert!(a == Arista::arista_sin_peso(2, 1));
    let d: Diarista<i32, NoPeso> = Diarista::arista_sin_peso(1, 2);
    assert!(d != Diarista::arista_sin_peso(2, 1));
    assert!(d.es_accesible(&1));
    assert!(!d.es_accesible(&2));
    assert!(a.es_accesible(&2));
    assert_eq!(a.other(&1), Some(2));
    assert_eq!(a.other(&5), None);
    assert_eq!(Arista::<i32, NoPeso>::vertice(3).other(&3), None);
    assert!(d.into_arista() == a);
    assert!(a.into_diarista() == d);
}

#[test]
fn minimo_y_suma_de_pesos() {
    let l: Vec<Arista<i32, isize>> =
        vec![Arista::arista(1, 2, Some(4)), Arista::arista(2, 3, Some(2)), Arista::arista(3, 4, Some(2))];
    assert!(Arista::min_aristas(&l) == Some(Arista::arista(2, 3, Some(2))));
    assert_eq!(Arista::<i32, isize>::sumatorio_pesos(&l), 8);
    let sin_peso: Vec<Arista<i32, isize>> = vec![Arista::arista(1, 2, Some(4)), Arista::arista(2, 3, None)];
    assert!(Arista::min_aristas(&sin_peso).is_none());
    assert!(Arista::<i32, isize>::min_aristas(&vec![]).is_none());
    let e: Arista<i32, isize> = Arista::arista(1, 2, Some(9));
    assert!(e.peso_por_defecto() == Some(Arista::arista(1, 2, Some(0))));
    assert!(Arista::<i32, isize>::vertice(1).peso_por_defecto().is_none());
}

#[test]
fn pesos() {
    assert!(NoPeso::elemento_neutro().es_negativo());
    assert!((-3isize).es_negativo());
    assert!(!3usize.es_negativo());
    assert_eq!(2i32.suma(&5), 7);
    assert_eq!(250u8.suma_comprobada(&10), None);
    assert_eq!((-4i32).to_isize(), -4);
}

#[test]
fn havel_hakimi_bordes() {
    assert!(!comprobar_sucesion(&vec![]));
    assert!(comprobar_sucesion(&vec![0]));
    assert!(comprobar_sucesion(&vec![0, 0, 0]));
    assert!(!comprobar_sucesion(&vec![1]));
    assert!(!comprobar_sucesion(&vec![3, 1, 1]));
    assert!(!comprobar_sucesion(&vec![1, 1, -1]));
    assert!(comprobar_sucesion(&vec![1, 2, 1]));
    assert!(!comprobar_sucesion(&vec![3, 3, 1, 1]));
}

#[test]
fn arbol_minimo_sin_aristas_y_peso_total() {
    let vacio: Grafo<i32, isize> = Grafo::new();
    assert!(arbol_peso_minimo(&vacio).is_none());
    let g: Grafo<i32, isize> = Grafo::from_aristas(vec![
        Arista::arista(1, 2, Some(3)),
        Arista::arista(2, 3, Some(1)),
        Arista::arista(1, 3, Some(1)),
        Arista::arista(3, 4, Some(2)),
        Arista::arista(4, 1, Some(5)),
    ]);
    let arbol = arbol_peso_minimo(&g).expect("el grafo tiene aristas");
    assert_eq!(*arbol.raiz(), 1);
    let t = arbol.into_grafo();
    assert_eq!(t.get_aristas().len(), g.size() - 1);
    assert_eq!(t.size(), g.size());
    assert_eq!(Arista::<i32, isize>::sumatorio_pesos(t.get_aristas()), 4);
}

#[test]
fn arbol_minimo_componente_de_la_raiz() {
    let g: Grafo<i32, isize> =
        Grafo::from_aristas(vec![Arista::arista(1, 2, Some(3)), Arista::arista(5, 6, Some(1))]);
    let t = arbol_peso_minimo(&g).expect("el grafo tiene aristas").into_grafo();
    assert_eq!(t.get_vertices(), vec![1, 2]);
}

#[test]
fn anchura_sin_aristas_desde_la_raiz() {
    let g: Grafo<i32, NoPeso> = Grafo::from_aristas(vec![Arista::arista_sin_peso(1, 1), Arista::arista_sin_peso(2, 3)]);
    let lazo = arbol_anchura(&g, &1).expect("1 tiene una arista incidente").into_grafo();
    assert_eq!(lazo.get_aristas().len(), 0);
    let aislado: Grafo<i32, NoPeso> = Grafo::from_aristas(vec![Arista::vertice(4), Arista::arista_sin_peso(2, 3)]);
    assert!(arbol_anchura(&aislado, &4).is_none());
    assert!(arbol_anchura(&g, &9).is_none());
    let t = arbol_anchura(&g, &2).expect("2 tiene un vecino").into_grafo();
    assert_eq!(t.get_aristas().len(), 1);
}

#[test]
fn anchura_por_capas() {
    let g: Grafo<i32, NoPeso> = Grafo::from_aristas(vec![
        Arista::arista_sin_peso(1, 2),
        Arista::arista_sin_peso(2, 3),
        Arista::arista_sin_peso(1, 3),
    ]);
    let t = arbol_anchura(&g, &1).expect("1 tiene vecinos").into_grafo();
    assert!(t.get_aristas().contains(&Arista::arista_sin_peso(1, 2)));
    assert!(t.get_aristas().contains(&Arista::arista_sin_peso(1, 3)));
    assert_eq!(t.get_aristas().len(), 2);
}

#[test]
fn profundidad_etiquetado() {
    let g: Grafo<i32, NoPeso> = Grafo::from_aristas(vec![
        Arista::arista_sin_peso(1, 2),
        Arista::arista_sin_peso(2, 3),
        Arista::arista_sin_peso(1, 4),
        Arista::arista_sin_peso(3, 3),
    ]);
    assert!(arbol_profundidad(&g, &9).is_none());
    let (arbol, df) = arbol_profundidad(&g, &1).expect("1 es un vertice");
    assert_eq!(df.get_nombre(), Some("df"));
    let orden: Vec<(i32, isize)> = df.get_datos().iter().map(|e| (*e.get_vertice(), e.get_valor())).collect();
    assert_eq!(orden, vec![(1, 0), (2, 1), (3, 2), (4, 3)]);
    assert_eq!(arbol.into_grafo().get_aristas().len(), 3);
}

#[test]
fn dijkstra_rechaza_pesos_negativos_y_ausentes() {
    let g: Grafo<i32, isize> = Grafo::from_aristas(vec![Arista::arista(1, 2, Some(3)), Arista::arista(2, 3, Some(-1))]);
    assert!(arbol_camino_minimo(&g, &1).is_none());
    assert!(arbol_camino_minimo(&g, &7).is_none());
    let sin_peso: Grafo<i32, NoPeso> = Grafo::from_aristas(vec![Arista::arista_sin_peso(1, 2)]);
    assert!(arbol_camino_minimo(&sin_peso, &1).is_none());
}

#[test]
fn dijkstra_fuerza_bruta() {
    // Distances checked against every simple path of this small graph.
    let g: Grafo<i32, usize> = Grafo::from_aristas(vec![
        Arista::arista(1, 2, Some(4)),
        Arista::arista(1, 3, Some(1)),
        Arista::arista(3, 2, Some(2)),
        Arista::arista(2, 4, Some(5)),
        Arista::arista(3, 4, Some(8)),
    ]);
    let (arbol, d) = arbol_camino_minimo(&g, &1).expect("1 es un vertice");
    assert_eq!(d.buscar_vertice(&1).unwrap().get_valor(), 0);
    assert_eq!(d.buscar_vertice(&3).unwrap().get_valor(), 1);
    assert_eq!(d.buscar_vertice(&2).unwrap().get_valor(), 3);
    assert_eq!(d.buscar_vertice(&4).unwrap().get_valor(), 8);
    assert_eq!(d.get_datos().last().unwrap().get_valor(), 0);
    assert_eq!(arbol.into_grafo().get_aristas().len(), 3);
}

#[test]
fn bipartido_cruza_entre_partes() {
    let g: Grafo<i32, NoPeso> = Grafo::from_aristas(vec![
        Arista::arista_sin_peso(1, 2),
        Arista::arista_sin_peso(3, 2),
        Arista::arista_sin_peso(3, 4),
    ]);
    let b = Bipartido::from_grafo(&g).expect("es un camino");
    let x = b.get_vertices_x();
    let y = b.get_vertices_y();
    for e in b.get_aristas() {
        let (u, v) = e.get_vertices().unwrap();
        assert!(x.contains(&u) && y.contains(&v));
    }
    assert!(x.iter().all(|v| !y.contains(v)));
    let lazo: Grafo<i32, NoPeso> = Grafo::from_aristas(vec![Arista::arista_sin_peso(1, 1)]);
    assert!(Bipartido::from_grafo(&lazo).is_none());
    assert_eq!(b.into_grafo().get_aristas().len(), 3);
}

#[test]
fn emparejamiento_agregar() {
    let mut m: Emparejamiento<i32, NoPeso, Arista<i32, NoPeso>> =
        Emparejamiento::new(vec![Arista::arista_sin_peso(1, 2)]).expect("valido");
    assert!(!m.agregar_arista(&Arista::arista_sin_peso(2, 3)));
    assert!(!m.agregar_arista(&Arista::vertice(5)));
    assert!(m.agregar_arista(&Arista::arista_sin_peso(3, 4)));
    assert_eq!(m.size(), 2);
    assert_eq!(m.recorrer(&4), Some(3));
    assert_eq!(m.recorrer(&9), None);
}

#[test]
fn etiquetado_consultas() {
    let mut e: Etiquetado<char> = Etiquetado::new(None);
    assert!(e.max().is_none());
    assert!(e.min().is_none());
    e.add_vertice('a', 3);
    e.add_vertice('b', 7);
    e.add_etiqueta(Etiqueta::new('c', 7));
    e.add_vertice('d', -1);
    assert_eq!(*e.max().unwrap().get_vertice(), 'b');
    assert_eq!(*e.min().unwrap().get_vertice(), 'd');
    assert_eq!(e.get_nombre(), None);
    e.add_vertice('a', 9);
    assert!(e.buscar_vertice(&'a').is_none());
    assert!(e.buscar_vertice_mut(&'a').is_none());
    e.buscar_vertice_mut(&'b').expect("una sola etiqueta").set_valor(1);
    assert_eq!(e.buscar_vertice(&'b').unwrap().get_valor(), 1);
    let mut et = Etiqueta::new('z', 2);
    et.set_valor(5);
    assert_eq!(et.get_valor(), 5);
    let f = Etiquetado::from_vec(Some("x"), vec![et.clone()]);
    assert_eq!(f.get_nombre(), Some("x"));
    assert_eq!(f.into_vec().len(), 1);
}

#[test]
fn red_sin_terminales() {
    let r: Option<Red<i32, NoPeso>> = Red::new(None, 1, vec![], 2, vec![(3, 1)], vec![]);
    assert!(r.is_none());
    let r: Option<Red<i32, NoPeso>> = Red::new(None, 1, vec![(3, 1)], 2, vec![], vec![]);
    assert!(r.is_none());
}

#[test]
fn flujo_no_supera_capacidad() {
    let mut f: Flujo<i32, NoPeso> = Flujo::new(Diarista::arista_sin_peso(1, 2), 3);
    assert_eq!(f.set_valor(4), None);
    assert_eq!(f.get_valor(), 0);
    assert_eq!(f.set_valor(3), Some(()));
    assert!(f.saturado());
    assert_eq!(f.get_valor_restante(), 0);
    assert!(f.into_arco() == Diarista::arista_sin_peso(1, 2));
}

#[test]
fn maximizar_respeta_capacidades() {
    let mut red: Red<char, NoPeso> = Red::new(
        Some("ejemplo".to_string()),
        's',
        vec![('a', 10), ('b', 10)],
        't',
        vec![('c', 7), ('d', 9)],
        vec![(Diarista::arista_sin_peso('a', 'c'), 4), (Diarista::arista_sin_peso('b', 'd'), 20),
             (Diarista::arista_sin_peso('a', 'd'), 3)],
    )
    .expect("la red es valida");
    maximizar_flujo(&mut red);
    assert_eq!(red.get_valor_red(), 13);
    for f in red.get_flujos().iter().chain(red.get_flujos_fuente().iter()).chain(red.get_flujos_sumidero().iter()) {
        assert!(f.get_valor() <= f.get_capacidad());
    }
    assert!(encontrar_camino_aumento(&red).is_none());
    assert_eq!(red.get_nombre(), Some("ejemplo"));
    assert_eq!(*red.get_fuente(), 's');
    assert_eq!(*red.get_sumidero(), 't');
    assert_eq!(red.get_valor_restante(&Diarista::arista_sin_peso('a', 'c')), Some(0));
    assert_eq!(red.arco_saturado(&Diarista::arista_sin_peso('b', 'd')), Some(false));
    let d: Digrafo<char, NoPeso> = red.into_digrafo();
    assert_eq!(d.get_aristas().len(), 7);
}

#[test]
fn arbol_envoltorio() {
    let g: Grafo<i32, NoPeso> = Grafo::from_aristas(vec![Arista::arista_sin_peso(1, 2)]);
    let a = Arbol::from_grafo(g, 1);
    assert_eq!(*a.raiz(), 1);
    assert_eq!(a.estructura().get_aristas().len(), 1);
}

#[test]
fn aristas_por_vertice_y_grados_digrafo() {
    let d: Digrafo<i32, NoPeso> =
        Digrafo::from_aristas(vec![Diarista::arista_sin_peso(1, 2), Diarista::arista_sin_peso(2, 2)]);
    assert_eq!(d.grado(&2), Some(3));
    assert_eq!(d.grado_entrada(&2), Some(2));
    assert_eq!(d.grado_salida(&2), Some(1));
    assert_eq!(d.aristas_por_vertice(&1).len(), 1);
    assert_eq!(d.entorno(&2), Some(vec![1, 2]));
}

#[test]
fn dijkstra_sigue_tras_una_hoja() {
    let g: Grafo<char, usize> = Grafo::from_aristas(vec![Arista::arista('a', 'b', Some(1)), Arista::arista('a', 'c', Some(5))]);
    let d = arbol_camino_minimo(&g, &'a').expect("a es un vertice").1;
    assert_eq!(d.buscar_vertice(&'b').unwrap().get_valor(), 1);
    assert_eq!(d.buscar_vertice(&'c').unwrap().get_valor(), 5);
    assert_eq!(d.get_datos().len(), 3);
}

#[test]
fn dijkstra_no_alcanzables_sin_etiqueta() {
    let g: Digrafo<i32, usize> =
        Digrafo::from_aristas(vec![Diarista::arista(1, 2, Some(2)), Diarista::arista(3, 1, Some(1))]);
    let d = arbol_camino_minimo(&g, &1).expect("1 es un vertice").1;
    assert_eq!(d.buscar_vertice(&2).unwrap().get_valor(), 2);
    assert!(d.buscar_vertice(&3).is_none());
}

#[test]
fn flujo_mutable() {
    let mut red: Red<i32, NoPeso> =
        Red::new(None, 1, vec![(2, 5)], 3, vec![(2, 4)], vec![]).expect("la red es valida");
    let arco: Diarista<i32, NoPeso> = Diarista::arista_sin_peso(1, 2);
    assert_eq!(red.get_flujo_mut(&arco).expect("el arco esta en la red").set_valor(3), Some(()));
    assert_eq!(red.get_valor(&arco), Some(3));
    assert!(red.get_flujo_mut(&Diarista::arista_sin_peso(7, 8)).is_none());
}

#[test]
fn bipartido_vertices_y_entorno() {
    let g: Grafo<i32, NoPeso> = Grafo::from_aristas(vec![Arista::arista_sin_peso(1, 2), Arista::arista_sin_peso(3, 2)]);
    let b = Bipartido::from_grafo(&g).expect("es un camino");
    assert_eq!(b.get_vertices(), vec![1, 2, 3]);
    assert_eq!(b.entorno(&2), Some(vec![1, 3]));
    assert_eq!(b.entorno(&9), None);
    assert_eq!(b.clone().get_aristas().len(), 2);
}

#[test]
fn orden_de_etiquetas_e_igualdad_de_emparejamientos() {
    assert!(Etiqueta::new('a', 1) < Etiqueta::new('b', 2));
    assert!(Etiqueta::new('a', 3) > Etiqueta::new('b', 2));
    let m1: Emparejamiento<i32, NoPeso, Arista<i32, NoPeso>> =
        Emparejamiento::new(vec![Arista::arista_sin_peso(1, 2)]).expect("valido");
    let m2: Emparejamiento<i32, NoPeso, Arista<i32, NoPeso>> =
        Emparejamiento::new(vec![Arista::arista_sin_peso(2, 1)]).expect("valido");
    let m3: Emparejamiento<i32, NoPeso, Arista<i32, NoPeso>> =
        Emparejamiento::new(vec![Arista::arista_sin_peso(1, 3)]).expect("valido");
    assert!(m1 == m2);
    assert!(m1 != m3);
}

#[test]
fn dijkstra_desborde_da_none() {
    let g: Grafo<u8, u8> = Grafo::from_aristas(vec![Arista::arista(1, 2, Some(200)), Arista::arista(2, 3, Some(100))]);
    assert!(arbol_camino_minimo(&g, &1).is_none());
    let h: Grafo<u8, u8> = Grafo::from_aristas(vec![Arista::arista(1, 2, Some(20)), Arista::arista(2, 3, Some(10))]);
    let d = arbol_camino_minimo(&h, &1).expect("las sumas caben").1;
    assert_eq!(d.buscar_vertice(&3).unwrap().get_valor(), 30);
}

#[test]
fn bipartido_en_cualquier_orden() {
    let g: Grafo<i32, NoPeso> = Grafo::from_aristas(vec![
        Arista::arista_sin_peso(1, 2),
        Arista::arista_sin_peso(3, 4),
        Arista::arista_sin_peso(1, 3),
    ]);
    let b = Bipartido::from_grafo(&g).expect("1 y 4 frente a 2 y 3");
    let x = b.get_vertices_x();
    let y = b.get_vertices_y();
    for e in b.get_aristas() {
        let (u, v) = e.get_vertices().unwrap();
        assert!(x.contains(&u) && y.contains(&v));
    }
    assert!(x.iter().all(|v| !y.contains(v)));
}

#[test]
fn dijkstra_arista_negativa_alcanzable() {
    let g: Digrafo<i32, isize> = Digrafo::from_aristas(vec![
        Diarista::arista(1, 2, Some(1)),
        Diarista::arista(1, 3, Some(5)),
        Diarista::arista(3, 2, Some(-10)),
    ]);
    assert!(arbol_camino_minimo(&g, &1).is_none());
    let h: Digrafo<i32, isize> = Digrafo::from_aristas(vec![Diarista::arista(1, 2, Some(1)), Diarista::arista(3, 2, Some(-10))]);
    let d = arbol_camino_minimo(&h, &1).expect("la arista negativa no es alcanzable").1;
    assert_eq!(d.buscar_vertice(&2).unwrap().get_valor(), 1);
    let sin: Digrafo<i32, isize> = Digrafo::from_aristas(vec![Diarista::arista(1, 2, Some(1)), Diarista::arista(2, 3, None)]);
    assert!(arbol_camino_minimo(&sin, &1).is_none());
}

#[test]
fn camino_con_arco_que_sale_del_sumidero() {
    let red: Red<char, NoPeso> = Red::new(
        None,
        's',
        vec![('a', 1), ('t', 1)],
        't',
        vec![('a', 1)],
        vec![(Diarista::arista_sin_peso('t', 'y'), 1)],
    )
    .expect("la red es valida");
    let camino = encontrar_camino_aumento(&red).expect("s -> a -> t es un camino de aumento");
    assert!(camino == vec![Diarista::arista_sin_peso('s', 'a'), Diarista::arista_sin_peso('a', 't')]);
}

#[test]
fn conservacion_en_la_red_de_ejemplo() {
    let s = |x: char, y: char| Diarista::<char, NoPeso>::arista_sin_peso(x, y);
    let mut red: Red<char, NoPeso> = Red::new(
        None,
        's',
        vec![('A', 1000), ('B', 1000), ('C', 1000)],
        't',
        vec![('M', 1000), ('N', 1000)],
        vec![(s('A', 'M'), 30), (s('A', 'I'), 40), (s('B', 'I'), 30), (s('C', 'I'), 80), (s('C', 'N'), 20),
             (s('I', 'i'), 70), (s('i', 'M'), 60), (s('i', 'N'), 50)],
    )
    .expect("la red es valida");
    maximizar_flujo(&mut red);
    assert_eq!(red.get_valor_red(), 120);
    let todos: Vec<Flujo<char, NoPeso>> = red.get_flujos_fuente().iter()
        .chain(red.get_flujos().iter()).chain(red.get_flujos_sumidero().iter()).cloned().collect();
    for v in ['A', 'B', 'C', 'I', 'i', 'M', 'N'] {
        let entra: u64 = todos.iter().filter(|f| f.get_arco().get_vertices().unwrap().1 == v).map(|f| f.get_valor()).sum();
        let sale: u64 = todos.iter().filter(|f| f.get_arco().get_vertices().unwrap().0 == v).map(|f| f.get_valor()).sum();
        assert_eq!(entra, sale);
    }
    let al_sumidero: u64 = red.get_flujos_sumidero().iter().map(|f| f.get_valor()).sum();
    assert_eq!(al_sumidero, 120);
}
